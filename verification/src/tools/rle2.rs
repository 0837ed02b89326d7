//! The second run-length encoding of bzip2, applied after the move-to-front transform.
//! It transforms only the runs of zeros: a run of n zeros becomes the digits of n in a
//! bijective base-2 numeration, least significant first, written with the symbols RUNA
//! (digit 1, symbol 0) and RUNB (digit 2, symbol 1). All other values are shifted up by
//! one, and an end-of-block symbol one larger than the largest symbol closes the block.
use crate::tools::compress::Block;
use vstd::prelude::*;
use vstd::arithmetic::power2::{lemma2_to64, lemma_pow2_unfold, pow2};

verus! {

pub const RUNA: u16 = 0;

pub const RUNB: u16 = 1;

/// The RUNA/RUNB symbols for `run + 1` zeros, least significant digit first.
pub open spec fn run_digits(run: nat) -> Seq<u16>
    decreases run,
{
    if run < 2 {
        seq![(run % 2) as u16]
    } else {
        seq![(run % 2) as u16] + run_digits(((run - 2) / 2) as nat)
    }
}

/// The RUNA/RUNB symbols for a run of `r` zeros (none for an empty run).
pub open spec fn zero_run_symbols(r: nat) -> Seq<u16> {
    if r == 0 {
        Seq::empty()
    } else {
        run_digits((r - 1) as nat)
    }
}

/// The number of zeros that a sequence of RUNA/RUNB symbols stands for: symbol `s` at
/// position `k` counts `(s + 1) * 2^k`.
pub open spec fn run_value(s: Seq<u16>) -> nat
    decreases s.len(),
{
    if s.len() == 0 {
        0
    } else {
        (s[0] + 1) as nat + 2 * run_value(s.drop_first())
    }
}

/// How often `v` occurs in `s`.
pub open spec fn count_of(s: Seq<u16>, v: u16) -> nat
    decreases s.len(),
{
    if s.len() == 0 {
        0
    } else {
        count_of(s.drop_last(), v) + (if s.last() == v {
            1nat
        } else {
            0nat
        })
    }
}

/// The RLE2 symbols of `s`, with `z` zeros pending before it.
pub open spec fn rle2_from(s: Seq<u8>, z: nat) -> Seq<u16>
    decreases s.len(),
{
    if s.len() == 0 {
        zero_run_symbols(z)
    } else if s[0] == 0 {
        rle2_from(s.drop_first(), z + 1)
    } else {
        zero_run_symbols(z) + seq![(s[0] + 1) as u16] + rle2_from(s.drop_first(), 0)
    }
}

/// The RLE2 symbols of `s` (without the end-of-block symbol).
pub open spec fn rle2_spec(s: Seq<u8>) -> Seq<u16> {
    rle2_from(s, 0)
}

/// The largest symbol that a non-zero byte of `s` becomes (0 if there is none).
pub open spec fn max_symbol(s: Seq<u8>) -> nat
    decreases s.len(),
{
    if s.len() == 0 {
        0
    } else if s.last() != 0 && s.last() + 1 > max_symbol(s.drop_last()) {
        (s.last() + 1) as nat
    } else {
        max_symbol(s.drop_last())
    }
}

/// A run of RUNA/RUNB symbols stands for the run of zeros it encodes.
pub proof fn lemma_run_value(r: nat)
    ensures
        run_value(zero_run_symbols(r)) == r,
{
    if r > 0 {
        lemma_run_digits_value((r - 1) as nat);
    }
}

proof fn lemma_run_digits_value(run: nat)
    ensures
        run_value(run_digits(run)) == run + 1,
    decreases run,
{
    let d = run_digits(run);
    assert(d[0] == (run % 2) as u16);
    if run < 2 {
        assert(d.drop_first() =~= Seq::<u16>::empty());
        assert(run_value(d.drop_first()) == 0);
    } else {
        let rest = ((run - 2) / 2) as nat;
        lemma_run_digits_value(rest);
        assert(d.drop_first() =~= run_digits(rest));
        assert((run - 2) % 2 == run % 2);
        assert(2 * rest + (run - 2) % 2 == run - 2);
    }
}

/// A run needs at most as many symbols as zeros.
pub proof fn lemma_run_digits_len(run: nat)
    ensures
        1 <= run_digits(run).len() <= run + 1,
    decreases run,
{
    if run >= 2 {
        lemma_run_digits_len(((run - 2) / 2) as nat);
    }
}

proof fn lemma_count_of_push(s: Seq<u16>, x: u16, v: u16)
    ensures
        count_of(s.push(x), v) == count_of(s, v) + (if x == v {
            1nat
        } else {
            0nat
        }),
{
    assert(s.push(x).drop_last() =~= s);
}

proof fn lemma_count_of_le(s: Seq<u16>, v: u16)
    ensures
        count_of(s, v) <= s.len(),
    decreases s.len(),
{
    if s.len() > 0 {
        lemma_count_of_le(s.drop_last(), v);
    }
}

/// Appends all of `src` to `dst`.
fn push_all(dst: &mut Vec<u16>, src: &Vec<u16>)
    ensures
        final(dst)@ == old(dst)@ + src@,
{
    let mut k: usize = 0;
    while k < src.len()
        invariant
            k <= src@.len(),
            dst@ == old(dst)@ + src@.take(k as int),
        decreases src@.len() - k,
    {
        dst.push(src[k]);
        proof {
            assert(src@.take(k + 1) =~= src@.take(k as int).push(src@[k as int]));
        }
        k = k + 1;
    }
    proof {
        assert(src@.take(src@.len() as int) =~= src@);
    }
}

/// Symbols are at most 256.
proof fn lemma_max_symbol_bound(s: Seq<u8>)
    ensures
        max_symbol(s) <= 256,
    decreases s.len(),
{
    if s.len() > 0 {
        lemma_max_symbol_bound(s.drop_last());
    }
}

/// Unique encoding for any run of 0_u8
pub fn rle2_encode_runs(r: u32, counts: &mut Vec<u32>) -> (out: Vec<u16>)
    requires
        old(counts)@.len() >= 2,
        old(counts)@[0] + r <= u32::MAX,
        old(counts)@[1] + r <= u32::MAX,
    ensures
        out@ == zero_run_symbols(r as nat),
        final(counts)@ == old(counts)@.update(0, (old(counts)@[0] + count_of(out@, 0)) as u32).update(
            1,
            (old(counts)@[1] + count_of(out@, 1)) as u32,
        ),
{
    if r == 0 {
        proof {
            assert(old(counts)@.update(0, (old(counts)@[0] + 0) as u32).update(
                1,
                (old(counts)@[1] + 0) as u32,
            ) =~= old(counts)@);
        }
        return Vec::new();
    }
    let mut run = r - 1;
    let mut out: Vec<u16> = Vec::new();
    proof {
        lemma_run_digits_len(run as nat);
    }
    loop
        invariant_except_break
            out@ + run_digits(run as nat) == run_digits((r - 1) as nat),
            out@.len() + run_digits(run as nat).len() <= r,
        invariant
            counts@.len() == old(counts)@.len(),
            old(counts)@.len() >= 2,
            counts@ == old(counts)@.update(0, (old(counts)@[0] + count_of(out@, 0)) as u32).update(
                1,
                (old(counts)@[1] + count_of(out@, 1)) as u32,
            ),
            old(counts)@[0] + r <= u32::MAX,
            old(counts)@[1] + r <= u32::MAX,
        ensures
            out@ == run_digits((r - 1) as nat),
            counts@ == old(counts)@.update(0, (old(counts)@[0] + count_of(out@, 0)) as u32).update(
                1,
                (old(counts)@[1] + count_of(out@, 1)) as u32,
            ),
        decreases run,
    {
        let ghost before = out@;
        proof {
            lemma_run_digits_len(run as nat);
            lemma_count_of_le(out@, 0);
            lemma_count_of_le(out@, 1);
        }
        let bit = (run % 2) as u16;
        out.push(bit);
        let c = counts[bit as usize] + 1;
        counts.set(bit as usize, c);
        proof {
            lemma_count_of_push(before, bit, 0);
            lemma_count_of_push(before, bit, 1);
            assert(counts@ =~= old(counts)@.update(
                0,
                (old(counts)@[0] + count_of(out@, 0)) as u32,
            ).update(1, (old(counts)@[1] + count_of(out@, 1)) as u32));
        }
        if run < 2 {
            proof {
                assert(out@ =~= before + run_digits(run as nat));
            }
            break ;
        }
        proof {
            assert(out@ + run_digits(((run - 2) / 2) as nat) =~= before + run_digits(run as nat));
            lemma_run_digits_len(((run - 2) / 2) as nat);
        }
        run = (run - 2) / 2;
    }
    out
}

/// Does run-length-encoding only on byte 0_u8. The RLE2 symbols of all the block data,
/// followed by the end-of-block symbol, are appended to temp_vec. The end-of-block
/// symbol is one more than the larger of the previous eob and the largest symbol.
pub fn rle2_encode(block: &mut Block)
    requires
        old(block).data@.len() < u32::MAX,
        old(block).eob < 0xfffe,
    ensures
        ({
            let eob = (if old(block).eob >= max_symbol(old(block).data@) {
                old(block).eob as nat
            } else {
                max_symbol(old(block).data@)
            }) + 1;
            &&& final(block).eob == eob
            &&& final(block).temp_vec@ == old(block).temp_vec@ + rle2_spec(old(block).data@)
                + seq![eob as u16]
        }),
        final(block).data@ == old(block).data@,
        final(block).end == old(block).end,
        final(block).freqs == old(block).freqs,
        final(block).sym_map == old(block).sym_map,
        final(block).key == old(block).key,
        final(block).seq == old(block).seq,
        final(block).block_crc == old(block).block_crc,
        final(block).stream_crc == old(block).stream_crc,
        final(block).budget == old(block).budget,
        final(block).is_last == old(block).is_last,
{
    let ghost data = block.data@;
    let ghost temp0 = block.temp_vec@;
    let mut zeros: u32 = 0;
    let mut freq_out: Vec<u32> = vec![0u32; 258];
    let mut i: usize = 0;
    proof {
        assert(data.skip(0) =~= data);
        assert(temp0 + Seq::<u16>::empty() =~= temp0);
    }
    while i < block.data.len()
        invariant
            block.data@ == data,
            data.len() < u32::MAX,
            i <= data.len(),
            zeros <= i,
            freq_out@.len() == 258,
            forall|k: int| 0 <= k < 258 ==> freq_out@[k] + zeros <= i,
            block.temp_vec@ + rle2_from(data.skip(i as int), zeros as nat) == temp0 + rle2_spec(
                data,
            ),
            block.eob >= old(block).eob,
            block.eob < 0xffff,
            block.eob == (if old(block).eob >= max_symbol(data.take(i as int)) {
                old(block).eob as nat
            } else {
                max_symbol(data.take(i as int))
            }),
            old(block).eob < 0xfffe,
            block.end == old(block).end,
            block.freqs == old(block).freqs,
            block.sym_map == old(block).sym_map,
            block.key == old(block).key,
            block.seq == old(block).seq,
            block.block_crc == old(block).block_crc,
            block.stream_crc == old(block).stream_crc,
            block.budget == old(block).budget,
            block.is_last == old(block).is_last,
        decreases data.len() - i,
    {
        let el = block.data[i];
        proof {
            lemma_max_symbol_bound(data.take(i + 1));
            assert(data.skip(i as int).drop_first() =~= data.skip(i + 1));
            assert(data.skip(i as int)[0] == el);
            assert(data.take(i + 1).drop_last() =~= data.take(i as int));
            assert(data.take(i + 1).last() == el);
        }
        if el == 0 {
            zeros = zeros + 1;
        } else {
            let ghost before = block.temp_vec@;
            let ghost old_zeros = zeros;
            if zeros > 0 {
                let runs = rle2_encode_runs(zeros, &mut freq_out);
                push_all(&mut block.temp_vec, &runs);
                proof {
                    lemma_count_of_le(runs@, 0);
                    lemma_count_of_le(runs@, 1);
                    lemma_run_digits_len((zeros - 1) as nat);
                }
                zeros = 0;
            } else {
                proof {
                    assert(before + zero_run_symbols(0) =~= before);
                }
            }
            let tmp = el as u16 + 1;
            block.temp_vec.push(tmp);
            let f = freq_out[tmp as usize] + 1;
            freq_out.set(tmp as usize, f);
            if tmp > block.eob {
                block.eob = tmp;
            }
            proof {
                let z0 = if old_zeros > 0 {
                    old_zeros as nat
                } else {
                    0nat
                };
                assert(rle2_from(data.skip(i as int), old_zeros as nat) == zero_run_symbols(
                    old_zeros as nat,
                ) + seq![(el + 1) as u16] + rle2_from(data.skip(i + 1), 0));
                assert(block.temp_vec@ =~= before + zero_run_symbols(old_zeros as nat) + seq![
                    tmp,
                ]);
                assert(block.temp_vec@ + rle2_from(data.skip(i + 1), 0) =~= before + rle2_from(
                    data.skip(i as int),
                    old_zeros as nat,
                ));
            }
        }
        i = i + 1;
    }
    proof {
        lemma_count_of_le(Seq::<u16>::empty(), 0);
    }
    let runs = rle2_encode_runs(zeros, &mut freq_out);
    push_all(&mut block.temp_vec, &runs);
    proof {
        assert(data.take(data.len() as int) =~= data);
        lemma_max_symbol_bound(data);
    }
    block.eob = block.eob + 1;
    block.temp_vec.push(block.eob);
}

/// The longest run of zeros the decoder accepts: a longer run is taken for a
/// malicious input.
pub const ZERO_BOMB: i32 = 2 * 1024 * 1024;

/// `n` zero symbols.
pub open spec fn zeros16(n: nat) -> Seq<u16> {
    Seq::new(n, |i: int| 0u16)
}

/// The values that the RLE2 symbols `r` stand for, with the RUNA/RUNB symbols `pend`
/// read before them: each run of RUNA/RUNB becomes the zeros it counts, and every other
/// symbol `n` becomes `n - 1`.
pub open spec fn rle2_undo(r: Seq<u16>, pend: Seq<u16>) -> Seq<u16>
    decreases r.len(),
{
    if r.len() == 0 {
        zeros16(run_value(pend))
    } else if r[0] <= RUNB {
        rle2_undo(r.drop_first(), pend.push(r[0]))
    } else {
        zeros16(run_value(pend)) + seq![(r[0] - 1) as u16] + rle2_undo(r.drop_first(), Seq::empty())
    }
}

/// Whether decoding `r`, with `pend` read before it, meets a run of zeros longer than
/// [`ZERO_BOMB`] while symbols are left to read.
pub open spec fn zero_bomb_in(r: Seq<u16>, pend: Seq<u16>) -> bool
    decreases r.len(),
{
    if r.len() == 0 {
        false
    } else if run_value(pend) > ZERO_BOMB {
        true
    } else if r[0] <= RUNB {
        zero_bomb_in(r.drop_first(), pend.push(r[0]))
    } else {
        zero_bomb_in(r.drop_first(), Seq::empty())
    }
}

/// The low bytes of `s`.
pub open spec fn low_bytes16(s: Seq<u16>) -> Seq<u8> {
    Seq::new(s.len(), |i: int| s[i] as u8)
}

/// `s` without its last element, if it has one.
pub open spec fn drop_eob<T>(s: Seq<T>) -> Seq<T> {
    if s.len() == 0 {
        s
    } else {
        s.drop_last()
    }
}

/// Appending a symbol to a run adds its weight at the next power of two.
pub proof fn lemma_run_value_push(s: Seq<u16>, x: u16)
    ensures
        run_value(s.push(x)) == run_value(s) + (x + 1) * pow2(s.len()),
    decreases s.len(),
{
    lemma2_to64();
    if s.len() > 0 {
        lemma_run_value_push(s.drop_first(), x);
        assert(s.push(x).drop_first() =~= s.drop_first().push(x));
        lemma_pow2_unfold(s.len());
        assert(s.push(x)[0] == s[0]);
        let p = pow2((s.len() - 1) as nat);
        assert(run_value(s.push(x)) == (s[0] + 1) as nat + 2 * run_value(s.drop_first().push(x)));
        assert(2 * (run_value(s.drop_first()) + (x + 1) * p) == 2 * run_value(s.drop_first()) + (x + 1) * (2 * p)) by (nonlinear_arith);
        assert((x + 1) * pow2(s.len()) == (x + 1) * (2 * p));
        assert(2 * ((x + 1) * pow2((s.len() - 1) as nat)) == (x + 1) * (2 * pow2((s.len() - 1) as nat))) by (nonlinear_arith);
    } else {
        assert(s.push(x).drop_first() =~= Seq::<u16>::empty());
        assert(run_value(Seq::<u16>::empty()) == 0);
        assert(run_value(s) == 0);
        assert((x + 1) * pow2(s.len()) == x + 1) by (nonlinear_arith)
            requires
                pow2(s.len()) == 1,
        ;
    }
}

/// A run of `k` symbols counts at least `2^k - 1` zeros.
pub proof fn lemma_run_value_min(s: Seq<u16>)
    ensures
        run_value(s) + 1 >= pow2(s.len()),
    decreases s.len(),
{
    lemma2_to64();
    if s.len() > 0 {
        lemma_run_value_min(s.drop_first());
        lemma_pow2_unfold(s.len());
    }
}

/// Does run-length-decoding from rle2_encode: runs of RUNA/RUNB become zeros, every
/// other symbol `n` becomes the byte `n - 1`, and the last value (the end-of-block
/// symbol) is dropped. `None` where a run of zeros grows past [`ZERO_BOMB`] before the
/// input ends.
pub fn rle2_decode(v: &[u16]) -> (out: Option<Vec<u8>>)
    ensures
        out is None <==> zero_bomb_in(v@, Seq::empty()),
        out matches Some(o) ==> o@ == drop_eob(low_bytes16(rle2_undo(v@, Seq::empty()))),
{
    let mut zeros: i32 = 0;
    let mut bit_multiplier: i32 = 1;
    let mut out: Vec<u8> = Vec::with_capacity(v.len());
    let ghost mut pend: Seq<u16> = Seq::empty();
    let ghost mut done: Seq<u16> = Seq::empty();
    proof {
        lemma2_to64();
    }
    let mut i: usize = 0;
    proof {
        assert(v@.skip(0) =~= v@);
        assert(done + rle2_undo(v@, pend) =~= rle2_undo(v@, Seq::empty()));
    }
    while i < v.len()
        invariant
            i <= v@.len(),
            zeros == run_value(pend),
            bit_multiplier == pow2(pend.len()),
            zeros <= ZERO_BOMB + 2 * pow2(pend.len()),
            pow2(pend.len()) <= 2 * ZERO_BOMB + 2,
            out@ == low_bytes16(done),
            done + rle2_undo(v@.skip(i as int), pend) == rle2_undo(v@, Seq::empty()),
            zero_bomb_in(v@, Seq::empty()) == zero_bomb_in(v@.skip(i as int), pend),
        decreases v@.len() - i,
    {
        let ghost rest = v@.skip(i as int);
        proof {
            assert(rest.drop_first() =~= v@.skip(i + 1));
            lemma_run_value_min(pend);
        }
        if zeros > ZERO_BOMB {
            return None;
        }
        let sym = v[i];
        if sym == RUNA {
            proof {
                lemma_run_value_push(pend, 0);
                pend = pend.push(0);
                lemma_pow2_unfold(pend.len());
            }
            zeros = zeros + bit_multiplier;
            bit_multiplier = bit_multiplier * 2;
        } else if sym == RUNB {
            proof {
                lemma_run_value_push(pend, 1);
                pend = pend.push(1);
                lemma_pow2_unfold(pend.len());
            }
            zeros = zeros + 2 * bit_multiplier;
            bit_multiplier = bit_multiplier * 2;
        } else {
            let ghost z = zeros16(run_value(pend));
            let mut k: i32 = 0;
            while k < zeros
                invariant
                    0 <= k <= zeros,
                    zeros == run_value(pend),
                    z == zeros16(run_value(pend)),
                    out@ == low_bytes16(done + z.take(k as int)),
                decreases zeros - k,
            {
                out.push(0);
                proof {
                    assert(low_bytes16(done + z.take(k + 1)) =~= low_bytes16(done + z.take(k as int)).push(0));
                }
                k = k + 1;
            }
            out.push(#[verifier::truncate] ((sym - 1) as u8));
            proof {
                assert(z.take(zeros as int) =~= z);
                assert(low_bytes16(done + z + seq![(sym - 1) as u16]) =~= out@);
                assert(done + z + seq![(sym - 1) as u16] + rle2_undo(v@.skip(i + 1), Seq::empty())
                    =~= done + rle2_undo(rest, pend));
                done = done + z + seq![(sym - 1) as u16];
                pend = Seq::empty();
                lemma2_to64();
            }
            zeros = 0;
            bit_multiplier = 1;
        }
        i = i + 1;
    }
    let ghost z = zeros16(run_value(pend));
    let mut k: i32 = 0;
    while k < zeros
        invariant
            0 <= k <= zeros,
            zeros == run_value(pend),
            z == zeros16(run_value(pend)),
            out@ == low_bytes16(done + z.take(k as int)),
        decreases zeros - k,
    {
        out.push(0);
        proof {
            assert(low_bytes16(done + z.take(k + 1)) =~= low_bytes16(done + z.take(k as int)).push(0));
        }
        k = k + 1;
    }
    proof {
        assert(v@.skip(i as int) =~= Seq::<u16>::empty());
        assert(z.take(zeros as int) =~= z);
        assert(done + z =~= rle2_undo(v@, Seq::empty()));
    }
    let _ = out.pop();
    proof {
        if out@.len() > 0 {
            assert(out@ =~= low_bytes16(done + z).drop_last());
        }
    }
    Some(out)
}

/// Every symbol of a run of zeros is RUNA or RUNB.
pub proof fn lemma_run_digits_small(run: nat)
    ensures
        forall|k: int| 0 <= k < run_digits(run).len() ==> run_digits(run)[k] <= 1,
    decreases run,
{
    if run >= 2 {
        lemma_run_digits_small(((run - 2) / 2) as nat);
        let a = seq![(run % 2) as u16];
        let b = run_digits(((run - 2) / 2) as nat);
        assert forall|k: int| 0 <= k < (a + b).len() implies (a + b)[k] <= 1 by {
            if k >= 1 {
                assert((a + b)[k] == b[k - 1]);
            }
        }
    }
}

/// Every RLE2 symbol is at most the largest symbol of the block, or RUNB.
pub proof fn lemma_rle2_small(s: Seq<u8>, z: nat, bound: nat)
    requires
        bound >= 1,
        forall|k: int| 0 <= k < s.len() ==> s[k] == 0 || s[k] + 1 <= bound,
    ensures
        forall|k: int| 0 <= k < rle2_from(s, z).len() ==> rle2_from(s, z)[k] <= bound,
    decreases s.len(),
{
    if z > 0 {
        lemma_run_digits_small((z - 1) as nat);
    }
    if s.len() == 0 {
        assert(rle2_from(s, z) == zero_run_symbols(z));
    } else {
        if s[0] == 0 {
            lemma_rle2_small(s.drop_first(), z + 1, bound);
            assert(rle2_from(s, z) == rle2_from(s.drop_first(), z + 1));
        } else {
            lemma_rle2_small(s.drop_first(), 0, bound);
            let a = zero_run_symbols(z);
            let b = seq![(s[0] + 1) as u16];
            let c = rle2_from(s.drop_first(), 0);
            assert forall|k: int| 0 <= k < (a + b + c).len() implies (a + b + c)[k] <= bound by {
                if k < a.len() {
                    assert((a + b + c)[k] == a[k]);
                } else if k == a.len() {
                    assert((a + b + c)[k] == b[0]);
                } else {
                    assert((a + b + c)[k] == c[k - a.len() - 1]);
                }
            }
        }
    }
}

/// The largest symbol bounds every non-zero byte.
pub proof fn lemma_max_symbol(s: Seq<u8>)
    ensures
        forall|k: int| 0 <= k < s.len() ==> s[k] == 0 || s[k] + 1 <= max_symbol(s),
        max_symbol(s) <= 256,
    decreases s.len(),
{
    if s.len() > 0 {
        lemma_max_symbol(s.drop_last());
        assert forall|k: int| 0 <= k < s.len() implies s[k] == 0 || s[k] + 1 <= max_symbol(s) by {
            if k < s.len() - 1 {
                assert(s[k] == s.drop_last()[k]);
            }
        }
    }
}

/// A bound on every non-zero byte bounds the largest symbol.
pub proof fn lemma_max_symbol_below(s: Seq<u8>, b: nat)
    requires
        forall|k: int| 0 <= k < s.len() ==> s[k] + 1 <= b,
    ensures
        max_symbol(s) <= b,
    decreases s.len(),
{
    if s.len() > 0 {
        lemma_max_symbol_below(s.drop_last(), b);
    }
}

/// The bytes of `s` as symbols.
pub open spec fn widen(s: Seq<u8>) -> Seq<u16> {
    Seq::new(s.len(), |i: int| s[i] as u16)
}

/// Whether every symbol of `a` is RUNA or RUNB.
pub open spec fn all_run_symbols(a: Seq<u16>) -> bool {
    forall|k: int| 0 <= k < a.len() ==> a[k] <= RUNB
}

proof fn lemma_run_value_grows(p: Seq<u16>, a: Seq<u16>)
    ensures
        run_value(p) <= run_value(p + a),
    decreases a.len(),
{
    if a.len() > 0 {
        lemma_run_value_push(p, a[0]);
        assert(p.push(a[0]) + a.drop_first() =~= p + a);
        lemma_run_value_grows(p.push(a[0]), a.drop_first());
    }
}

/// RUNA/RUNB symbols only add to the pending run.
proof fn lemma_undo_run(a: Seq<u16>, b: Seq<u16>, pend: Seq<u16>)
    requires
        all_run_symbols(a),
    ensures
        rle2_undo(a + b, pend) == rle2_undo(b, pend + a),
        run_value(pend + a) <= ZERO_BOMB ==> zero_bomb_in(a + b, pend) == zero_bomb_in(b, pend + a),
    decreases a.len(),
{
    if a.len() == 0 {
        assert(a + b =~= b);
        assert(pend + a =~= pend);
    } else {
        let a2 = a.drop_first();
        assert((a + b).drop_first() =~= a2 + b);
        assert(pend.push(a[0]) + a2 =~= pend + a);
        lemma_undo_run(a2, b, pend.push(a[0]));
        lemma_run_value_grows(pend, a);
    }
}

proof fn lemma_undo_from(s: Seq<u8>, z: nat, eob: u16)
    requires
        eob >= 2,
    ensures
        rle2_undo(rle2_from(s, z).push(eob), Seq::empty()) == zeros16(z) + widen(s) + seq![
            (eob - 1) as u16,
        ],
        z + s.len() <= ZERO_BOMB ==> !zero_bomb_in(rle2_from(s, z).push(eob), Seq::empty()),
    decreases s.len(),
{
    let t = seq![eob];
    let e: Seq<u16> = Seq::empty();
    lemma_run_value(z);
    if z > 0 {
        lemma_run_digits_small((z - 1) as nat);
    }
    let a = zero_run_symbols(z);
    assert(all_run_symbols(a));
    assert(e + a =~= a);
    assert(t.drop_first() =~= e);
    if s.len() == 0 {
        assert(rle2_from(s, z).push(eob) =~= a + t);
        lemma_undo_run(a, t, e);
        assert(rle2_undo(t, a) =~= zeros16(z) + seq![(eob - 1) as u16] + rle2_undo(e, e));
        assert(zeros16(z) + widen(s) + seq![(eob - 1) as u16] =~= zeros16(z) + seq![(eob - 1) as u16]);
        if z <= ZERO_BOMB {
            assert(!zero_bomb_in(e, e));
            assert(!zero_bomb_in(t, a));
        }
    } else if s[0] == 0 {
        lemma_undo_from(s.drop_first(), z + 1, eob);
        assert(zeros16(z + 1) + widen(s.drop_first()) =~= zeros16(z) + widen(s));
    } else {
        let r = rle2_from(s.drop_first(), 0);
        let x = (s[0] + 1) as u16;
        lemma_undo_from(s.drop_first(), 0, eob);
        assert(rle2_from(s, z).push(eob) =~= a + (seq![x] + r.push(eob)));
        lemma_undo_run(a, seq![x] + r.push(eob), e);
        assert((seq![x] + r.push(eob)).drop_first() =~= r.push(eob));
        assert(zeros16(0) + widen(s.drop_first()) =~= widen(s.drop_first()));
        assert(zeros16(z) + seq![(x - 1) as u16] + (widen(s.drop_first()) + seq![(eob - 1) as u16])
            =~= zeros16(z) + widen(s) + seq![(eob - 1) as u16]);
        if z + s.len() <= ZERO_BOMB {
            assert(!zero_bomb_in(r.push(eob), e));
            assert(!zero_bomb_in(seq![x] + r.push(eob), a));
        }
    }
}

/// Decoding the RLE2 symbols of a block, closed by an end-of-block symbol, gives the
/// values of the block back, then the end-of-block symbol less one; and no run of the
/// block trips the zero-bomb guard when the block is no longer than [`ZERO_BOMB`].
pub proof fn lemma_rle2_roundtrip(m: Seq<u8>, eob: u16)
    requires
        eob >= 2,
    ensures
        rle2_undo(rle2_spec(m).push(eob), Seq::empty()) == widen(m) + seq![(eob - 1) as u16],
        m.len() <= ZERO_BOMB ==> !zero_bomb_in(rle2_spec(m).push(eob), Seq::empty()),
{
    lemma_undo_from(m, 0, eob);
    assert(zeros16(0) + widen(m) =~= widen(m));
}

/// [`rle2_decode`] gives back the block that [`rle2_encode`] coded, for blocks no
/// longer than [`ZERO_BOMB`].
pub proof fn lemma_rle2_decode_roundtrip(m: Seq<u8>, eob: u16)
    requires
        2 <= eob,
        m.len() <= ZERO_BOMB,
    ensures
        !zero_bomb_in(rle2_spec(m).push(eob), Seq::empty()),
        drop_eob(low_bytes16(rle2_undo(rle2_spec(m).push(eob), Seq::empty()))) == m,
{
    lemma_rle2_roundtrip(m, eob);
    let u = widen(m) + seq![(eob - 1) as u16];
    assert(low_bytes16(u).drop_last() =~= m);
}

} // verus!
