//! The move-to-front transform: each byte is replaced by its position in a list of the
//! bytes in use, and then moved to the front of that list.
use crate::tools::compress::Block;
use crate::tools::symbol_map::{encode_sym_map, sym_map_spec};
use std::collections::VecDeque;
use vstd::prelude::*;

verus! {

/// The byte values below `n` that occur in `s`, ascending.
pub open spec fn present_upto(s: Seq<u8>, n: nat) -> Seq<u8>
    decreases n,
{
    if n == 0 {
        Seq::empty()
    } else {
        present_upto(s, (n - 1) as nat) + (if s.contains((n - 1) as u8) {
            seq![(n - 1) as u8]
        } else {
            Seq::empty()
        })
    }
}

/// The byte values that occur in `s`, ascending.
pub open spec fn present_symbols(s: Seq<u8>) -> Seq<u8> {
    present_upto(s, 256)
}

/// The position of `b` in a list without duplicates.
pub open spec fn position(ix: Seq<u8>, b: u8) -> int {
    choose|i: int| 0 <= i < ix.len() && ix[i] == b
}

/// The list with its element at `i` moved to the front.
pub open spec fn move_to_front(ix: Seq<u8>, i: int) -> Seq<u8> {
    seq![ix[i]] + ix.remove(i)
}

/// The list after the move-to-front transform of `s`, starting from `ix`.
pub open spec fn mtf_state(ix: Seq<u8>, s: Seq<u8>) -> Seq<u8>
    decreases s.len(),
{
    if s.len() == 0 {
        ix
    } else {
        let prev = mtf_state(ix, s.drop_last());
        move_to_front(prev, position(prev, s.last()))
    }
}

/// The move-to-front transform of `s`, starting from the list `ix`.
pub open spec fn mtf_spec(ix: Seq<u8>, s: Seq<u8>) -> Seq<u8>
    decreases s.len(),
{
    if s.len() == 0 {
        Seq::empty()
    } else {
        mtf_spec(ix, s.drop_last()).push(
            position(mtf_state(ix, s.drop_last()), s.last()) as u8,
        )
    }
}

/// The present symbols are ascending, and are exactly the bytes of `s`.
pub proof fn lemma_present_upto(s: Seq<u8>, n: nat)
    requires
        n <= 256,
    ensures
        present_upto(s, n).len() <= n,
        forall|i: int, j: int|
            0 <= i < j < present_upto(s, n).len() ==> present_upto(s, n)[i] < present_upto(
                s,
                n,
            )[j],
        forall|i: int| 0 <= i < present_upto(s, n).len() ==> present_upto(s, n)[i] < n,
        forall|b: u8| b < n ==> (present_upto(s, n).contains(b) <==> s.contains(b)),
    decreases n,
{
    if n > 0 {
        lemma_present_upto(s, (n - 1) as nat);
        let p = present_upto(s, (n - 1) as nat);
        let b = (n - 1) as u8;
        assert forall|x: u8| x < n implies (present_upto(s, n).contains(x) <==> s.contains(x)) by {
            if s.contains(x) && x == b {
                assert(present_upto(s, n)[p.len() as int] == x);
            }
            if present_upto(s, n).contains(x) {
                let k = choose|k: int| 0 <= k < present_upto(s, n).len() && present_upto(s, n)[k] == x;
                if k < p.len() {
                    assert(p[k] == x);
                }
            }
            if x < b && p.contains(x) {
                let k = choose|k: int| 0 <= k < p.len() && p[k] == x;
                assert(present_upto(s, n)[k] == x);
            }
        }
    }
}

/// Moving an element to the front keeps the elements and the absence of duplicates.
proof fn lemma_move_to_front(ix: Seq<u8>, i: int)
    requires
        0 <= i < ix.len(),
        ix.no_duplicates(),
    ensures
        move_to_front(ix, i).len() == ix.len(),
        move_to_front(ix, i).no_duplicates(),
        forall|b: u8| move_to_front(ix, i).contains(b) <==> ix.contains(b),
{
    let m = move_to_front(ix, i);
    assert forall|b: u8| m.contains(b) <==> ix.contains(b) by {
        if ix.contains(b) {
            let k = choose|k: int| 0 <= k < ix.len() && ix[k] == b;
            if k == i {
                assert(m[0] == b);
            } else if k < i {
                assert(m[k + 1] == b);
            } else {
                assert(m[k] == b);
            }
        }
        if m.contains(b) {
            let k = choose|k: int| 0 <= k < m.len() && m[k] == b;
            if k == 0 {
                assert(ix[i] == b);
            } else if k - 1 < i {
                assert(ix[k - 1] == b);
            } else {
                assert(ix[k] == b);
            }
        }
    }
}

/// The transform state keeps the elements of the starting list.
pub proof fn lemma_mtf_state(ix: Seq<u8>, s: Seq<u8>)
    requires
        ix.no_duplicates(),
        forall|k: int| 0 <= k < s.len() ==> ix.contains(#[trigger] s[k]),
    ensures
        mtf_state(ix, s).len() == ix.len(),
        mtf_state(ix, s).no_duplicates(),
        forall|b: u8| mtf_state(ix, s).contains(b) <==> ix.contains(b),
    decreases s.len(),
{
    if s.len() > 0 {
        let t = s.drop_last();
        assert forall|k: int| 0 <= k < t.len() implies ix.contains(#[trigger] t[k]) by {
            assert(t[k] == s[k]);
        }
        lemma_mtf_state(ix, t);
        let prev = mtf_state(ix, t);
        assert(ix.contains(s[s.len() - 1]));
        assert(prev.contains(s.last()));
        lemma_move_to_front(prev, position(prev, s.last()));
    }
}

/// Encode data using Move To Front transform.
/// The bytes `0..end` of the block are replaced by their move-to-front indexes, starting
/// from the ascending list of the byte values that occur in the block, and the symbol
/// map of those values is recorded.
pub fn mtf_encode(block: &mut Block)
    requires
        old(block).end <= old(block).data@.len(),
    ensures
        final(block).data@ == mtf_spec(
            present_symbols(old(block).data@),
            old(block).data@.take(old(block).end as int),
        ) + old(block).data@.skip(old(block).end as int),
        final(block).sym_map@ == sym_map_spec(present_symbols(old(block).data@)),
        final(block).end == old(block).end,
        final(block).temp_vec == old(block).temp_vec,
        final(block).freqs == old(block).freqs,
        final(block).key == old(block).key,
        final(block).eob == old(block).eob,
        final(block).seq == old(block).seq,
        final(block).block_crc == old(block).block_crc,
        final(block).stream_crc == old(block).stream_crc,
        final(block).budget == old(block).budget,
        final(block).is_last == old(block).is_last,
{
    let ghost data0 = block.data@;
    // Mark the byte values that occur.
    let mut v: Vec<bool> = vec![false; 256];
    let mut i: usize = 0;
    while i < block.data.len()
        invariant
            i <= block.data@.len(),
            block.data@ == data0,
            v@.len() == 256,
            forall|b: int| 0 <= b < 256 ==> v@[b] == data0.take(i as int).contains(b as u8),
        decreases block.data@.len() - i,
    {
        let b = block.data[i];
        v.set(b as usize, true);
        proof {
            assert forall|x: int| 0 <= x < 256 implies v@[x] == data0.take(i + 1).contains(x as u8) by {
                if data0.take(i + 1).contains(x as u8) {
                    let k = choose|k: int| 0 <= k < i + 1 && #[trigger] data0.take(i + 1)[k] == x as u8;
                    if k < i {
                        assert(data0.take(i as int)[k] == x as u8);
                    }
                }
                if data0.take(i as int).contains(x as u8) {
                    let k = choose|k: int| 0 <= k < i && #[trigger] data0.take(i as int)[k] == x as u8;
                    assert(data0.take(i + 1)[k] == x as u8);
                }
                if x == b as int {
                    assert(data0.take(i + 1)[i as int] == b);
                }
            }
        }
        i = i + 1;
    }
    proof {
        assert(data0.take(data0.len() as int) =~= data0);
    }
    // The ascending list of the values that occur.
    let mut index: VecDeque<u8> = VecDeque::new();
    let mut s: usize = 0;
    while s < 256
        invariant
            s <= 256,
            v@.len() == 256,
            forall|b: int| 0 <= b < 256 ==> v@[b] == data0.contains(b as u8),
            index@ == present_upto(data0, s as nat),
        decreases 256 - s,
    {
        if v[s] {
            index.push_back(s as u8);
        }
        proof {
            assert(index@ =~= present_upto(data0, (s + 1) as nat));
        }
        s = s + 1;
    }
    proof {
        lemma_present_upto(data0, 256);
    }
    // Create the symbol map while we have the input data
    block.sym_map = encode_sym_map(&index);
    let ghost ix0 = index@;
    proof {
        assert(ix0.no_duplicates());
    }
    // ...then do the transform
    let end = block.end as usize;
    let mut i: usize = 0;
    while i < end
        invariant
            end == block.end as usize,
            end <= data0.len(),
            i <= end,
            block.data@.len() == data0.len(),
            block.data@ == mtf_spec(ix0, data0.take(i as int)) + data0.skip(i as int),
            index@ == mtf_state(ix0, data0.take(i as int)),
            ix0.no_duplicates(),
            ix0.len() <= 256,
            forall|b: u8| ix0.contains(b) <==> data0.contains(b),
            ix0 == present_symbols(data0),
            block.sym_map@ == sym_map_spec(present_symbols(data0)),
            block.end == old(block).end,
            block.temp_vec == old(block).temp_vec,
            block.freqs == old(block).freqs,
            block.key == old(block).key,
            block.eob == old(block).eob,
            block.seq == old(block).seq,
            block.block_crc == old(block).block_crc,
            block.stream_crc == old(block).stream_crc,
            block.budget == old(block).budget,
            block.is_last == old(block).is_last,
        decreases end - i,
    {
        let byte = block.data[i];
        proof {
            assert(byte == data0[i as int]);
            assert forall|k: int| 0 <= k < data0.take(i as int).len() implies ix0.contains(
                #[trigger] data0.take(i as int)[k],
            ) by {
                assert(data0.contains(data0.take(i as int)[k]));
            }
            lemma_mtf_state(ix0, data0.take(i as int));
            assert(data0.contains(byte));
            assert(index@.contains(byte));
        }
        // Find the position of the byte in the list.
        let mut idx: usize = 0;
        while index[idx] != byte
            invariant
                idx < index@.len(),
                index@.len() <= 256,
                index@.contains(byte),
                forall|k: int| 0 <= k < idx ==> index@[k] != byte,
            decreases index@.len() - idx,
        {
            idx = idx + 1;
            proof {
                if idx >= index@.len() {
                    let k = choose|k: int| 0 <= k < index@.len() && index@[k] == byte;
                    assert(false);
                }
            }
        }
        let ghost st = index@;
        proof {
            assert(position(st, byte) == idx as int);
            assert(data0.take(i + 1).drop_last() =~= data0.take(i as int));
            assert(data0.take(i + 1).last() == byte);
        }
        block.data.set(i, idx as u8);
        if idx != 0 {
            let _ = index.remove(idx);
            index.push_front(byte);
        }
        proof {
            assert(index@ =~= move_to_front(st, idx as int));
            assert(block.data@ =~= mtf_spec(ix0, data0.take(i + 1)) + data0.skip(i + 1));
        }
        i = i + 1;
    }
}

} // verus!
