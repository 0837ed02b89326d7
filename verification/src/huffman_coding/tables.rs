//! The coding tables of a block: their first guess from the symbol frequencies, the
//! choice of a table for each group of fifty symbols, and the move-to-front coding of
//! those choices.
use vstd::prelude::*;

verus! {

/// The number of coding tables for `n` RLE2 symbols.
pub open spec fn table_count_spec(n: nat) -> usize {
    if n <= 199 {
        2
    } else if n <= 599 {
        3
    } else if n <= 1199 {
        4
    } else if n <= 2399 {
        5
    } else {
        6
    }
}

/// We can have 2-6 coding tables depending on how much data we have coming in.
pub fn table_count_for(n: usize) -> (t: usize)
    ensures
        t == table_count_spec(n as nat),
{
    if n <= 199 {
        2
    } else if n <= 599 {
        3
    } else if n <= 1199 {
        4
    } else if n <= 2399 {
        5
    } else {
        6
    }
}

/// The sum of the first `k` frequencies.
pub open spec fn freq_sum(f: Seq<u32>, k: int) -> int
    decreases k,
{
    if k <= 0 {
        0
    } else {
        freq_sum(f, k - 1) + f[k - 1]
    }
}

/// The state of the first guess: the tables, the table being filled, and the
/// frequency given to it so far.
pub struct InitState {
    pub tables: Seq<Seq<u32>>,
    pub index: int,
    pub portion: int,
}

/// One table entry set to 0.
pub open spec fn mark(tables: Seq<Seq<u32>>, t: int, i: int) -> Seq<Seq<u32>> {
    tables.update(t, tables[t].update(i, 0))
}

/// The index after a saturating step down.
pub open spec fn step_down(t: int) -> int {
    if t > 0 {
        t - 1
    } else {
        0
    }
}

/// The first guess after symbol `i` with frequency `f`: the symbol goes to the table
/// being filled; once that table's share passes the limit, the next table is filled.
/// Tables 2 and 4 stop just short of the limit.
pub open spec fn init_step(st: InitState, i: int, f: int, limit: int) -> InitState {
    if st.portion + f > limit && (st.index == 2 || st.index == 4) {
        let t = step_down(st.index);
        let tables = mark(st.tables, t, i);
        if f > limit {
            InitState { tables: mark(tables, t, i), index: step_down(t), portion: 0 }
        } else {
            InitState { tables, index: t, portion: f }
        }
    } else {
        let portion = st.portion + f;
        let tables = mark(st.tables, st.index, i);
        if portion > limit {
            InitState { tables, index: step_down(st.index), portion: 0 }
        } else {
            InitState { tables, index: st.index, portion }
        }
    }
}

/// Six tables of 258 entries, all 15.
pub open spec fn fresh_tables() -> Seq<Seq<u32>> {
    Seq::new(6, |t: int| Seq::new(258, |i: int| 15u32))
}

/// The first guess after the symbols `0..k`.
pub open spec fn init_fold(freqs: Seq<u32>, table_count: int, limit: int, k: int) -> InitState
    decreases k,
{
    if k <= 0 {
        InitState { tables: fresh_tables(), index: table_count - 1, portion: 0 }
    } else {
        init_step(init_fold(freqs, table_count, limit, k - 1), k - 1, freqs[k - 1] as int, limit)
    }
}

/// The first guess at the tables: each symbol `0..=eob` gets weight 0 in one table and
/// keeps 15 in the others.
pub open spec fn init_tables_spec(freqs: Seq<u32>, table_count: int, eob: int) -> Seq<Seq<u32>> {
    init_fold(freqs, table_count, freq_sum(freqs, freqs.len() as int) / table_count, eob + 1).tables
}

proof fn lemma_freq_sum_mono(f: Seq<u32>, j: int, k: int)
    requires
        0 <= j <= k,
    ensures
        freq_sum(f, j) <= freq_sum(f, k),
    decreases k - j,
{
    if j < k {
        lemma_freq_sum_mono(f, j, k - 1);
    }
}

/// The first guess keeps its shape: six tables of 258 entries, a table index within
/// the tables, and a share no larger than the frequencies seen.
proof fn lemma_init_fold(freqs: Seq<u32>, table_count: int, limit: int, k: int)
    requires
        1 <= table_count <= 6,
        0 <= k <= 258,
        k <= freqs.len(),
        limit >= 0,
    ensures
        init_fold(freqs, table_count, limit, k).tables.len() == 6,
        forall|t: int| 0 <= t < 6 ==> #[trigger] init_fold(freqs, table_count, limit, k).tables[t].len() == 258,
        0 <= init_fold(freqs, table_count, limit, k).index < table_count,
        0 <= init_fold(freqs, table_count, limit, k).portion <= freq_sum(freqs, k),
    decreases k,
{
    if k > 0 {
        lemma_init_fold(freqs, table_count, limit, k - 1);
        lemma_freq_sum_mono(freqs, k - 1, k);
    }
}

/// Update our coding tables: the first guess from the frequency counts.
pub fn init_tables(freqs: &[u32], table_count: usize, eob: u16) -> (tables: Vec<Vec<u32>>)
    requires
        1 <= table_count <= 6,
        (eob as int) < 258,
        (eob as int) < freqs@.len(),
        freq_sum(freqs@, freqs@.len() as int) <= u32::MAX,
    ensures
        tables@.len() == 6,
        forall|t: int| 0 <= t < 6 ==> #[trigger] tables@[t]@ == init_tables_spec(freqs@, table_count as int, eob as int)[t],
        forall|t: int| 0 <= t < 6 ==> #[trigger] tables@[t]@.len() == 258,
{
    // Initialize the tables to weights of 15.
    let mut tables: Vec<Vec<u32>> = Vec::with_capacity(6);
    let mut t: usize = 0;
    while t < 6
        invariant
            t <= 6,
            tables@.len() == t,
            forall|q: int| 0 <= q < t ==> #[trigger] tables@[q]@ == fresh_tables()[q],
        decreases 6 - t,
    {
        let mut row: Vec<u32> = Vec::with_capacity(258);
        let mut i: usize = 0;
        while i < 258
            invariant
                i <= 258,
                row@ == Seq::new(i as nat, |k: int| 15u32),
            decreases 258 - i,
        {
            row.push(15);
            proof {
                assert(row@ =~= Seq::new((i + 1) as nat, |k: int| 15u32));
            }
            i = i + 1;
        }
        proof {
            assert(row@ =~= fresh_tables()[t as int]);
        }
        tables.push(row);
        t = t + 1;
    }
    // Then set the soft limits to divide the data out to the tables.
    let mut total: u32 = 0;
    let mut k: usize = 0;
    while k < freqs.len()
        invariant
            k <= freqs@.len(),
            freq_sum(freqs@, freqs@.len() as int) <= u32::MAX,
            total == freq_sum(freqs@, k as int),
        decreases freqs@.len() - k,
    {
        proof {
            lemma_freq_sum_mono(freqs@, k + 1, freqs@.len() as int);
        }
        total = total + freqs[k];
        k = k + 1;
    }
    let portion_limit: u32 = total / table_count as u32;
    let ghost limit = portion_limit as int;
    let mut table_index: usize = table_count - 1;
    let mut portion: u32 = 0;
    let mut i: usize = 0;
    while i < eob as usize + 1
        invariant
            1 <= table_count <= 6,
            (eob as int) < 258,
            (eob as int) < freqs@.len(),
            i <= eob + 1,
            freq_sum(freqs@, freqs@.len() as int) <= u32::MAX,
            limit == portion_limit,
            limit == freq_sum(freqs@, freqs@.len() as int) / (table_count as int),
            tables@.len() == 6,
            ({
                let st = init_fold(freqs@, table_count as int, limit, i as int);
                &&& forall|q: int| 0 <= q < 6 ==> #[trigger] tables@[q]@ == st.tables[q]
                &&& table_index == st.index
                &&& portion == st.portion
            }),
        decreases eob + 1 - i,
    {
        proof {
            lemma_init_fold(freqs@, table_count as int, limit, i as int);
            lemma_freq_sum_mono(freqs@, i + 1, freqs@.len() as int);
            lemma_init_fold(freqs@, table_count as int, limit, i + 1);
        }
        let f = freqs[i];
        let ghost st = init_fold(freqs@, table_count as int, limit, i as int);
        let ghost nx = init_fold(freqs@, table_count as int, limit, i + 1);
        if portion + f > portion_limit && (table_index == 2 || table_index == 4) {
            table_index = if table_index > 0 {
                table_index - 1
            } else {
                0
            };
            set_zero(&mut tables, table_index, i);
            portion = f;
            if portion > portion_limit {
                set_zero(&mut tables, table_index, i);
                table_index = if table_index > 0 {
                    table_index - 1
                } else {
                    0
                };
                portion = 0;
            }
        } else {
            portion = portion + f;
            set_zero(&mut tables, table_index, i);
            if portion > portion_limit {
                table_index = if table_index > 0 {
                    table_index - 1
                } else {
                    0
                };
                portion = 0;
            }
        }
        proof {
            assert forall|q: int| 0 <= q < 6 implies #[trigger] tables@[q]@ == nx.tables[q] by {}
        }
        i = i + 1;
    }
    proof {
        lemma_init_fold(freqs@, table_count as int, limit, eob as int + 1);
        assert forall|t: int| 0 <= t < 6 implies #[trigger] tables@[t]@.len() == 258 by {
            assert(tables@[t]@ == init_fold(freqs@, table_count as int, limit, eob as int + 1).tables[t]);
        }
    }
    tables
}

/// Sets entry `i` of table `t` to 0.
fn set_zero(tables: &mut Vec<Vec<u32>>, t: usize, i: usize)
    requires
        t < old(tables)@.len(),
        i < old(tables)@[t as int]@.len(),
    ensures
        final(tables)@.len() == old(tables)@.len(),
        forall|q: int| 0 <= q < old(tables)@.len() && q != t ==> #[trigger] final(tables)@[q]@ == old(tables)@[q]@,
        final(tables)@[t as int]@ == old(tables)@[t as int]@.update(i as int, 0),
{
    let mut row = tables[t].clone();
    row.set(i, 0);
    tables.set(t, row);
}

/// Chunk `c` of the symbols: fifty of them, fewer at the end.
pub open spec fn chunk(r: Seq<u16>, c: int) -> Seq<u16> {
    r.subrange(50 * c, if 50 * c + 50 <= r.len() {
        50 * c + 50
    } else {
        r.len() as int
    })
}

/// The number of chunks of fifty symbols.
pub open spec fn chunk_count(n: int) -> int {
    (n + 49) / 50
}

/// The cost of coding `ch` with the code lengths `tab`.
pub open spec fn chunk_cost(tab: Seq<u32>, ch: Seq<u16>) -> int
    decreases ch.len(),
{
    if ch.len() == 0 {
        0
    } else {
        chunk_cost(tab, ch.drop_last()) + tab[ch.last() as int]
    }
}

/// The first of the tables `0..k` with the lowest cost for `ch`.
pub open spec fn best_table(tables: Seq<Seq<u32>>, ch: Seq<u16>, k: int) -> int
    decreases k,
{
    if k <= 1 {
        0
    } else {
        let b = best_table(tables, ch, k - 1);
        if chunk_cost(tables[k - 1], ch) < chunk_cost(tables[b], ch) {
            k - 1
        } else {
            b
        }
    }
}

/// A row of counts after counting the symbols of `ch`.
pub open spec fn add_syms(row: Seq<u32>, ch: Seq<u16>) -> Seq<u32>
    decreases ch.len(),
{
    if ch.len() == 0 {
        row
    } else {
        let r = add_syms(row, ch.drop_last());
        r.update(ch.last() as int, (r[ch.last() as int] + 1) as u32)
    }
}

/// The counts of each table after the chunks `0..k`: each chunk's symbols count toward
/// the table chosen for it.
pub open spec fn rfreq_fold(tables: Seq<Seq<u32>>, r: Seq<u16>, tc: int, k: int) -> Seq<Seq<u32>>
    decreases k,
{
    if k <= 0 {
        Seq::new(6, |t: int| Seq::new(258, |i: int| 0u32))
    } else {
        let prev = rfreq_fold(tables, r, tc, k - 1);
        let bt = best_table(tables, chunk(r, k - 1), tc);
        prev.update(bt, add_syms(prev[bt], chunk(r, k - 1)))
    }
}

proof fn lemma_rfreq_len(tables: Seq<Seq<u32>>, r: Seq<u16>, tc: int, k: int)
    requires
        1 <= tc <= 6,
    ensures
        rfreq_fold(tables, r, tc, k).len() == 6,
    decreases k,
{
    if k > 0 {
        lemma_rfreq_len(tables, r, tc, k - 1);
        lemma_best_bound(tables, chunk(r, k - 1), tc);
    }
}

/// The table chosen for each chunk, then a 0 for each selector past the chunks.
pub open spec fn selectors_of(tables: Seq<Seq<u32>>, r: Seq<u16>, tc: int) -> Seq<usize> {
    Seq::new(
        (r.len() / 50 + 1) as nat,
        |i: int|
            if i < chunk_count(r.len() as int) {
                best_table(tables, chunk(r, i), tc) as usize
            } else {
                0usize
            },
    )
}

/// What the selection needs: symbols within the tables, small table entries, and few
/// enough symbols to count.
pub open spec fn select_ready(tables: Seq<Vec<u32>>, r: Seq<u16>, tc: int) -> bool {
    &&& 1 <= tc <= 6
    &&& tables.len() == 6
    &&& forall|t: int| 0 <= t < 6 ==> #[trigger] tables[t]@.len() == 258
    &&& forall|t: int, i: int| 0 <= t < 6 && 0 <= i < 258 ==> tables[t]@[i] <= 17
    &&& forall|i: int| 0 <= i < r.len() ==> r[i] < 258
    &&& r.len() < u32::MAX
}

/// The tables as sequences.
pub open spec fn table_views(tables: Seq<Vec<u32>>) -> Seq<Seq<u32>> {
    Seq::new(tables.len(), |t: int| tables[t]@)
}

proof fn lemma_cost_bound(tab: Seq<u32>, ch: Seq<u16>)
    requires
        tab.len() == 258,
        forall|i: int| 0 <= i < 258 ==> tab[i] <= 17,
        forall|i: int| 0 <= i < ch.len() ==> ch[i] < 258,
    ensures
        0 <= chunk_cost(tab, ch) <= 17 * ch.len(),
    decreases ch.len(),
{
    if ch.len() > 0 {
        lemma_cost_bound(tab, ch.drop_last());
    }
}

proof fn lemma_best_bound(tables: Seq<Seq<u32>>, ch: Seq<u16>, k: int)
    requires
        k >= 1,
    ensures
        0 <= best_table(tables, ch, k) < k,
    decreases k,
{
    if k > 1 {
        lemma_best_bound(tables, ch, k - 1);
    }
}

/// The cost of a chunk of the symbols under one table.
fn cost_of(tab: &Vec<u32>, r: &Vec<u16>, start: usize, end: usize) -> (c: u32)
    requires
        start <= end <= r@.len(),
        end - start <= 50,
        tab@.len() == 258,
        forall|i: int| 0 <= i < 258 ==> tab@[i] <= 17,
        forall|i: int| 0 <= i < r@.len() ==> r@[i] < 258,
    ensures
        c == chunk_cost(tab@, r@.subrange(start as int, end as int)),
{
    let mut c: u32 = 0;
    let mut i = start;
    while i < end
        invariant
            start <= i <= end,
            end <= r@.len(),
            end - start <= 50,
            tab@.len() == 258,
            forall|q: int| 0 <= q < 258 ==> tab@[q] <= 17,
            forall|q: int| 0 <= q < r@.len() ==> r@[q] < 258,
            c == chunk_cost(tab@, r@.subrange(start as int, i as int)),
        decreases end - i,
    {
        proof {
            assert(r@.subrange(start as int, i + 1).drop_last() =~= r@.subrange(start as int, i as int));
            lemma_cost_bound(tab@, r@.subrange(start as int, i as int));
        }
        c = c + tab[r[i] as usize];
        i = i + 1;
    }
    c
}

/// Counts the symbols `start..end` into a row.
fn count_syms(row: &mut Vec<u32>, r: &Vec<u16>, start: usize, end: usize)
    requires
        start <= end <= r@.len(),
        old(row)@.len() == 258,
        forall|i: int| 0 <= i < r@.len() ==> r@[i] < 258,
        forall|i: int| 0 <= i < 258 ==> old(row)@[i] as int + (end - start) <= u32::MAX,
    ensures
        final(row)@ == add_syms(old(row)@, r@.subrange(start as int, end as int)),
        final(row)@.len() == 258,
        forall|q: int| 0 <= q < 258 ==> final(row)@[q] <= old(row)@[q] + (end - start),
{
    let mut i = start;
    while i < end
        invariant
            start <= i <= end,
            end <= r@.len(),
            forall|q: int| 0 <= q < r@.len() ==> r@[q] < 258,
            forall|q: int| 0 <= q < 258 ==> old(row)@[q] as int + (end - start) <= u32::MAX,
            row@ == add_syms(old(row)@, r@.subrange(start as int, i as int)),
            row@.len() == 258,
            forall|q: int| 0 <= q < 258 ==> row@[q] <= old(row)@[q] + (i - start),
        decreases end - i,
    {
        let s = r[i] as usize;
        proof {
            assert(r@.subrange(start as int, i + 1).drop_last() =~= r@.subrange(start as int, i as int));
        }
        row.set(s, row[s] + 1);
        i = i + 1;
    }
}

/// One pass over the symbols: for each chunk of fifty, the table with the lowest cost
/// is chosen and the chunk's symbols are counted toward it.
pub fn select_pass(tables: &Vec<Vec<u32>>, r: &Vec<u16>, table_count: usize) -> (res: (Vec<usize>, Vec<Vec<u32>>))
    requires
        select_ready(tables@, r@, table_count as int),
        r@.len() + 100 < u32::MAX,
    ensures
        res.0@ == selectors_of(table_views(tables@), r@, table_count as int),
        res.1@.len() == 6,
        forall|t: int| 0 <= t < 6 ==> #[trigger] res.1@[t]@.len() == 258,
        forall|t: int| 0 <= t < 6 ==> #[trigger] res.1@[t]@ == rfreq_fold(
            table_views(tables@),
            r@,
            table_count as int,
            chunk_count(r@.len() as int),
        )[t],
{
    let ghost tv = table_views(tables@);
    let n = r.len();
    let selector_count = n / 50 + 1;
    let mut selectors: Vec<usize> = Vec::with_capacity(selector_count);
    let mut rfreq: Vec<Vec<u32>> = Vec::with_capacity(6);
    let mut t: usize = 0;
    while t < 6
        invariant
            t <= 6,
            rfreq@.len() == t,
            forall|q: int| 0 <= q < t ==> #[trigger] rfreq@[q]@ == Seq::new(258, |i: int| 0u32),
        decreases 6 - t,
    {
        let mut row: Vec<u32> = Vec::with_capacity(258);
        let mut i: usize = 0;
        while i < 258
            invariant
                i <= 258,
                row@ == Seq::new(i as nat, |k: int| 0u32),
            decreases 258 - i,
        {
            row.push(0);
            proof {
                assert(row@ =~= Seq::new((i + 1) as nat, |k: int| 0u32));
            }
            i = i + 1;
        }
        rfreq.push(row);
        t = t + 1;
    }
    proof {
        assert forall|q: int| 0 <= q < 6 implies #[trigger] rfreq@[q]@ == rfreq_fold(tv, r@, table_count as int, 0)[q] by {}
    }
    let mut c: usize = 0;
    let mut start: usize = 0;
    while start < n
        invariant
            select_ready(tables@, r@, table_count as int),
            tv == table_views(tables@),
            n == r@.len(),
            n + 100 < u32::MAX,
            start == (if 50 * c <= n {
                50 * c
            } else {
                n as int
            }),
            c <= chunk_count(n as int),
            start < n ==> c < chunk_count(n as int),
            start >= n ==> c == chunk_count(n as int),
            rfreq@.len() == 6,
            forall|q: int| 0 <= q < 6 ==> #[trigger] rfreq@[q]@ == rfreq_fold(tv, r@, table_count as int, c as int)[q],
            forall|q: int, i: int| 0 <= q < 6 && 0 <= i < 258 ==> rfreq@[q]@[i] <= start,
            forall|q: int| 0 <= q < 6 ==> #[trigger] rfreq@[q]@.len() == 258,
            selectors@ == selectors_of(tv, r@, table_count as int).take(c as int),
        decreases n - start,
    {
        let end = if start + 50 <= n {
            start + 50
        } else {
            n
        };
        let ghost ch = chunk(r@, c as int);
        proof {
            assert(start == 50 * c);
            assert(ch == r@.subrange(start as int, end as int));
        }
        // the cost of each table, and the first with the lowest
        let mut bt: usize = 0;
        let mut best_cost = cost_of(&tables[0], r, start, end);
        let mut k: usize = 1;
        while k < table_count
            invariant
                select_ready(tables@, r@, table_count as int),
                tv == table_views(tables@),
                1 <= k <= table_count,
                start <= end <= r@.len(),
                end - start <= 50,
                ch == r@.subrange(start as int, end as int),
                bt == best_table(tv, ch, k as int),
                bt < k,
                best_cost == chunk_cost(tv[bt as int], ch),
            decreases table_count - k,
        {
            let ck = cost_of(&tables[k], r, start, end);
            if ck < best_cost {
                bt = k;
                best_cost = ck;
            }
            k = k + 1;
        }
        selectors.push(bt);
        let ghost prevf = rfreq_fold(tv, r@, table_count as int, c as int);
        let ghost old_rf = rfreq@;
        let mut row = rfreq[bt].clone();
        proof {
            assert(row@ == prevf[bt as int]);
        }
        count_syms(&mut row, r, start, end);
        let ghost rowv = row@;
        rfreq.set(bt, row);
        proof {
            assert(rfreq@[bt as int]@ == rowv);
            assert(rowv == add_syms(prevf[bt as int], ch));
            lemma_rfreq_len(tv, r@, table_count as int, c as int);
            assert(c < chunk_count(n as int));
            assert(selectors@ =~= selectors_of(tv, r@, table_count as int).take(c + 1));
            assert(rfreq_fold(tv, r@, table_count as int, c + 1) == prevf.update(bt as int, add_syms(prevf[bt as int], ch)));
            assert forall|q: int| 0 <= q < 6 implies #[trigger] rfreq@[q]@ == rfreq_fold(tv, r@, table_count as int, c + 1)[q] by {
                if q != bt {
                    assert(rfreq@[q] == old_rf[q]);
                    assert(old_rf[q]@ == prevf[q]);
                } else {
                    assert(rfreq@[q]@ == rowv);
                }
            }
        }
        proof {
            assert(end == (if 50 * (c + 1) <= n {
                50 * (c + 1)
            } else {
                n as int
            }));
            if end >= n {
                assert(c + 1 == chunk_count(n as int)) by (nonlinear_arith)
                    requires
                        50 * c < n,
                        n <= 50 * c + 50,
                ;
            } else {
                assert(c + 1 < chunk_count(n as int)) by (nonlinear_arith)
                    requires
                        50 * c + 50 < n,
                ;
            }
        }
        c = c + 1;
        start = end;
    }
    // the selectors past the chunks are 0
    while c < selector_count
        invariant
            c <= selector_count,
            selector_count == n / 50 + 1,
            n == r@.len(),
            c >= chunk_count(n as int),
            selectors@ == selectors_of(tv, r@, table_count as int).take(c as int),
        decreases selector_count - c,
    {
        selectors.push(0);
        proof {
            assert(selectors@ =~= selectors_of(tv, r@, table_count as int).take(c + 1));
        }
        c = c + 1;
    }
    proof {
        assert(selectors@ =~= selectors_of(tv, r@, table_count as int));
    }
    (selectors, rfreq)
}

/// The first guess holds only 15s and 0s.
pub proof fn lemma_init_entries(freqs: Seq<u32>, tc: int, eob: int, t: int, i: int)
    requires
        1 <= tc <= 6,
        0 <= eob < 258,
        eob < freqs.len(),
        0 <= t < 6,
        0 <= i < 258,
    ensures
        init_tables_spec(freqs, tc, eob)[t][i] <= 15,
{
    let limit = freq_sum(freqs, freqs.len() as int) / tc;
    lemma_freq_sum_mono(freqs, 0, freqs.len() as int);
    lemma_init_small(freqs, tc, limit, eob + 1, t, i);
}

proof fn lemma_init_small(freqs: Seq<u32>, tc: int, limit: int, k: int, t: int, i: int)
    requires
        1 <= tc <= 6,
        0 <= k <= 258,
        k <= freqs.len(),
        limit >= 0,
        0 <= t < 6,
        0 <= i < 258,
    ensures
        init_fold(freqs, tc, limit, k).tables[t][i] <= 15,
    decreases k,
{
    if k > 0 {
        lemma_init_small(freqs, tc, limit, k - 1, t, i);
        lemma_init_fold(freqs, tc, limit, k - 1);
    }
}

/// Every selector names one of the tables.
pub proof fn lemma_selectors_bound(tables: Seq<Seq<u32>>, r: Seq<u16>, tc: int)
    requires
        1 <= tc <= 6,
    ensures
        forall|i: int| 0 <= i < selectors_of(tables, r, tc).len() ==> (selectors_of(tables, r, tc)[i] as int) < tc,
{
    assert forall|i: int| 0 <= i < selectors_of(tables, r, tc).len() implies (selectors_of(tables, r, tc)[i] as int) < tc by {
        if i < chunk_count(r.len() as int) {
            lemma_best_bound(tables, chunk(r, i), tc);
        }
    }
}

/// Six tables of 258 weights, every weight 15.
pub open spec fn fifteens() -> Seq<Seq<u32>> {
    Seq::new(6, |t: int| Seq::new(258, |i: int| 15u32))
}

/// `tb` with the weight of symbol `i` in table `t` set to 0.
pub open spec fn set_zero_at(tb: Seq<Seq<u32>>, t: int, i: int) -> Seq<Seq<u32>> {
    tb.update(t, tb[t].update(i, 0))
}

/// One less, but not below zero.
pub open spec fn down(t: int) -> int {
    if t <= 0 {
        0
    } else {
        t - 1
    }
}

/// The tables, the table being filled and the frequency it holds so far, after the
/// first `k` symbols of the portion-based first guess: symbols go, by frequency, to the
/// tables from the last down, each table taking symbols until it holds more than
/// `limit`; tables 2 and 4 stop just short of the limit instead.
pub open spec fn portion_fold(freqs: Seq<u32>, limit: int, tc: int, k: int) -> (Seq<Seq<u32>>, int, int)
    decreases k,
{
    if k <= 0 {
        (fifteens(), tc - 1, 0)
    } else {
        let (tb, ti, p) = portion_fold(freqs, limit, tc, k - 1);
        let i = k - 1;
        let f = freqs[i] as int;
        if p + f > limit && (ti == 2 || ti == 4) {
            let ti2 = down(ti);
            let tb2 = set_zero_at(tb, ti2, i);
            if f > limit {
                (tb2, down(ti2), 0)
            } else {
                (tb2, ti2, f)
            }
        } else {
            let tb2 = set_zero_at(tb, ti, i);
            if p + f > limit {
                (tb2, down(ti), 0)
            } else {
                (tb2, ti, p + f)
            }
        }
    }
}

proof fn lemma_portion_fold(freqs: Seq<u32>, limit: int, tc: int, k: int)
    requires
        1 <= tc <= 6,
        0 <= k <= freqs.len(),
        k <= 258,
    ensures
        ({
            let (tb, ti, p) = portion_fold(freqs, limit, tc, k);
            &&& tb.len() == 6
            &&& forall|t: int| 0 <= t < 6 ==> #[trigger] tb[t].len() == 258
            &&& forall|t: int, i: int| 0 <= t < 6 && 0 <= i < 258 ==> tb[t][i] == 0 || tb[t][i] == 15
            &&& 0 <= ti < 6
            &&& 0 <= p <= freq_sum(freqs, k)
        }),
    decreases k,
{
    if k > 0 {
        lemma_portion_fold(freqs, limit, tc, k - 1);
        let (tb, ti, p) = portion_fold(freqs, limit, tc, k - 1);
        assert forall|t: int, i: int| 0 <= t < 6 && 0 <= i < 258 implies #[trigger] set_zero_at(tb, down(ti), k - 1)[t][i] == 0
            || set_zero_at(tb, down(ti), k - 1)[t][i] == 15 by {
            if t == down(ti) && i == k - 1 {
            } else {
                assert(set_zero_at(tb, down(ti), k - 1)[t][i] == tb[t][i]);
            }
        }
        assert forall|t: int, i: int| 0 <= t < 6 && 0 <= i < 258 implies #[trigger] set_zero_at(tb, ti, k - 1)[t][i] == 0
            || set_zero_at(tb, ti, k - 1)[t][i] == 15 by {
            if t == ti && i == k - 1 {
            } else {
                assert(set_zero_at(tb, ti, k - 1)[t][i] == tb[t][i]);
            }
        }
    } else {
        assert(freq_sum(freqs, 0) == 0);
    }
}

/// The portion-based first guess at the tables: every weight 15, then each symbol
/// `0..=eob`, in turn, gets weight 0 in the table being filled (see [`portion_fold`]).
pub fn init_tables_old(freqs: &[u32], table_count: usize, eob: u16, limit: u32) -> (tables: Vec<Vec<u32>>)
    requires
        1 <= table_count <= 6,
        (eob as int) < 258,
        (eob as int) < freqs@.len(),
        freq_sum(freqs@, freqs@.len() as int) <= u32::MAX,
    ensures
        tables@.len() == 6,
        forall|t: int| 0 <= t < 6 ==> #[trigger] tables@[t]@ == portion_fold(freqs@, limit as int, table_count as int, eob + 1).0[t],
{
    let mut tables: Vec<Vec<u32>> = Vec::with_capacity(6);
    let mut t: usize = 0;
    while t < 6
        invariant
            t <= 6,
            tables@.len() == t,
            forall|q: int| 0 <= q < t ==> #[trigger] tables@[q]@ == Seq::new(258, |i: int| 15u32),
        decreases 6 - t,
    {
        let mut row: Vec<u32> = Vec::with_capacity(258);
        let mut i: usize = 0;
        while i < 258
            invariant
                i <= 258,
                row@ == Seq::new(i as nat, |k: int| 15u32),
            decreases 258 - i,
        {
            row.push(15);
            proof {
                assert(row@ =~= Seq::new((i + 1) as nat, |k: int| 15u32));
            }
            i = i + 1;
        }
        tables.push(row);
        t = t + 1;
    }
    let mut table_index: usize = table_count - 1;
    let mut portion: u32 = 0;
    let mut i: usize = 0;
    proof {
        assert(table_views(tables@) =~= portion_fold(freqs@, limit as int, table_count as int, 0).0);
    }
    while i <= eob as usize
        invariant
            1 <= table_count <= 6,
            (eob as int) < 258,
            (eob as int) < freqs@.len(),
            freq_sum(freqs@, freqs@.len() as int) <= u32::MAX,
            i <= eob + 1,
            tables@.len() == 6,
            table_views(tables@) == portion_fold(freqs@, limit as int, table_count as int, i as int).0,
            table_index == portion_fold(freqs@, limit as int, table_count as int, i as int).1,
            portion == portion_fold(freqs@, limit as int, table_count as int, i as int).2,
        decreases eob + 1 - i,
    {
        proof {
            lemma_portion_fold(freqs@, limit as int, table_count as int, i as int);
            lemma_freq_sum_mono(freqs@, i + 1, freqs@.len() as int);
            assert forall|q: int| 0 <= q < 6 implies #[trigger] tables@[q]@.len() == 258 by {
                assert(table_views(tables@)[q] == tables@[q]@);
            }
        }
        let f = freqs[i];
        let ghost tb = table_views(tables@);
        if portion + f > limit && (table_index == 2 || table_index == 4) {
            table_index = table_index - 1;
            set_zero(&mut tables, table_index, i);
            proof {
                assert(table_views(tables@) =~= set_zero_at(tb, table_index as int, i as int));
            }
            portion = f;
            if portion > limit {
                table_index = if table_index == 0 { 0 } else { table_index - 1 };
                portion = 0;
            }
        } else {
            portion = portion + f;
            set_zero(&mut tables, table_index, i);
            proof {
                assert(table_views(tables@) =~= set_zero_at(tb, table_index as int, i as int));
            }
            if portion > limit {
                table_index = if table_index == 0 { 0 } else { table_index - 1 };
                portion = 0;
            }
        }
        i = i + 1;
    }
    proof {
        assert forall|t: int| 0 <= t < 6 implies #[trigger] tables@[t]@ == portion_fold(freqs@, limit as int, table_count as int, eob + 1).0[t] by {
            assert(table_views(tables@)[t] == tables@[t]@);
        }
    }
    tables
}

/// Every weight of the portion-based guess is 0 or 15.
pub proof fn lemma_portion_entries(freqs: Seq<u32>, limit: int, tc: int, k: int, t: int, i: int)
    requires
        1 <= tc <= 6,
        0 <= k <= freqs.len(),
        k <= 258,
        0 <= t < 6,
        0 <= i < 258,
    ensures
        portion_fold(freqs, limit, tc, k).0[t].len() == 258,
        portion_fold(freqs, limit, tc, k).0[t][i] <= 15,
{
    lemma_portion_fold(freqs, limit, tc, k);
}

} // verus!
