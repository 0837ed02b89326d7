//! Why the decoders undo the transform. Row `k` of the sorted rotations holds the
//! rotation that starts at `p[k]`; its last byte is `L[k]`. The last-first mapping sends
//! a row to a row that holds the same rotation shifted right by one byte, so walking
//! the inverse mapping visits rows holding the rotations that start at 1, 2, 3, ...,
//! and the last bytes of those rows spell out the original data.
use vstd::prelude::*;
use vstd::set_lib::*;
use vstd::relations::injective_on;
use crate::tools::bwt::{
    bwt_out, is_perm, lemma_lex_irreflexive, lemma_rotation_index, lex_lt, rotation, row_of,
    sorted_rotations,
};
use crate::tools::bwt_ds::{first_row, test_byte, test_walk};
use crate::tools::bwt_inverse::{
    count_eq, count_lt, inverse_bwt, lemma_count_eq_take_step, lemma_lf_bounds, lemma_lf_inverse, lemma_walk_bounds, lf,
    lf_inverse, walk,
};

verus! {

/// `x` turned right by one byte: its last byte moves to the front.
pub open spec fn shr(x: Seq<u8>) -> Seq<u8> {
    seq![x.last()] + x.drop_last()
}

/// The position before `q` in a cyclic block of length `n`.
pub open spec fn prev(q: int, n: int) -> int {
    if q == 0 {
        n - 1
    } else {
        q - 1
    }
}

/// The rotation held by row `k` of the sorted rotations `p`.
pub open spec fn row_text(s: Seq<u8>, p: Seq<usize>, k: int) -> Seq<u8> {
    rotation(s, p[k] as int)
}

/// The rows `0..n`.
pub open spec fn below(n: int) -> Set<int> {
    set_int_range(0, n)
}

/// The rows whose rotation satisfies `pred`.
pub open spec fn rows_where(s: Seq<u8>, p: Seq<usize>, pred: spec_fn(Seq<u8>) -> bool) -> Set<int> {
    below(s.len() as int).filter(|k: int| pred(row_text(s, p, k)))
}

/// The rows whose rotation, turned right, satisfies `pred`.
pub open spec fn rows_where_shifted(s: Seq<u8>, p: Seq<usize>, pred: spec_fn(Seq<u8>) -> bool) -> Set<int> {
    below(s.len() as int).filter(|k: int| pred(shr(row_text(s, p, k))))
}

/// The positions below `m` whose byte is below `c`.
pub open spec fn positions_lt(l: Seq<u8>, c: int, m: int) -> Set<int> {
    below(m).filter(|k: int| (l[k] as int) < c)
}

/// The positions below `m` whose byte is `c`.
pub open spec fn positions_eq(l: Seq<u8>, c: int, m: int) -> Set<int> {
    below(m).filter(|k: int| l[k] as int == c)
}

proof fn lemma_lex_asym(a: Seq<u8>, b: Seq<u8>)
    requires
        lex_lt(a, b),
    ensures
        !lex_lt(b, a),
    decreases a.len(),
{
    if a.len() > 0 && b.len() > 0 && a[0] == b[0] {
        lemma_lex_asym(a.drop_first(), b.drop_first());
    }
}

proof fn lemma_lex_trans(a: Seq<u8>, b: Seq<u8>, c: Seq<u8>)
    requires
        lex_lt(a, b),
        lex_lt(b, c),
    ensures
        lex_lt(a, c),
    decreases a.len(),
{
    if a.len() > 0 && b.len() > 0 && c.len() > 0 && a[0] == b[0] && b[0] == c[0] {
        lemma_lex_trans(a.drop_first(), b.drop_first(), c.drop_first());
    }
}

proof fn lemma_lex_total(a: Seq<u8>, b: Seq<u8>)
    requires
        a.len() == b.len(),
    ensures
        lex_lt(a, b) || lex_lt(b, a) || a == b,
    decreases a.len(),
{
    if a.len() == 0 {
        assert(a =~= b);
    } else if a[0] == b[0] {
        lemma_lex_total(a.drop_first(), b.drop_first());
        if a.drop_first() == b.drop_first() {
            assert forall|i: int| 0 <= i < a.len() implies a[i] == b[i] by {
                if i > 0 {
                    assert(a[i] == a.drop_first()[i - 1]);
                    assert(b[i] == b.drop_first()[i - 1]);
                }
            }
            assert(a =~= b);
        }
    }
}

proof fn lemma_lex_cons(x: u8, a: Seq<u8>, y: u8, b: Seq<u8>)
    ensures
        lex_lt(seq![x] + a, seq![y] + b) == (x < y || (x == y && lex_lt(a, b))),
{
    assert((seq![x] + a).drop_first() =~= a);
    assert((seq![y] + b).drop_first() =~= b);
}

proof fn lemma_lex_same_last(a: Seq<u8>, b: Seq<u8>)
    requires
        a.len() == b.len(),
        a.len() > 0,
        a.last() == b.last(),
    ensures
        lex_lt(a, b) == lex_lt(a.drop_last(), b.drop_last()),
    decreases a.len(),
{
    if a.len() == 1 {
        assert(a =~= b);
        lemma_lex_irreflexive(a);
    } else if a[0] == b[0] {
        lemma_lex_same_last(a.drop_first(), b.drop_first());
        assert(a.drop_first().drop_last() =~= a.drop_last().drop_first());
        assert(b.drop_first().drop_last() =~= b.drop_last().drop_first());
    } else {
        assert(a.drop_last()[0] == a[0]);
        assert(b.drop_last()[0] == b[0]);
    }
}

/// Turning a rotation right gives the rotation that starts one byte earlier.
proof fn lemma_shr_rotation(s: Seq<u8>, q: int)
    requires
        0 <= q < s.len(),
    ensures
        rotation(s, q).len() == s.len(),
        rotation(s, q).last() == s[prev(q, s.len() as int)],
        shr(rotation(s, q)) == rotation(s, prev(q, s.len() as int)),
{
    let n = s.len() as int;
    let pq = prev(q, n);
    lemma_rotation_index(s, q, n - 1);
    assert forall|k: int| 0 <= k < n implies shr(rotation(s, q))[k] == rotation(s, pq)[k] by {
        lemma_rotation_index(s, pq, k);
        if k > 0 {
            lemma_rotation_index(s, q, k - 1);
        }
    }
    assert(shr(rotation(s, q)) =~= rotation(s, pq));
}

/// Turning right loses nothing.
proof fn lemma_shr_injective(a: Seq<u8>, b: Seq<u8>)
    requires
        a.len() == b.len(),
        a.len() > 0,
        shr(a) == shr(b),
    ensures
        a == b,
{
    assert forall|i: int| 0 <= i < a.len() implies a[i] == b[i] by {
        if i == a.len() - 1 {
            assert(shr(a)[0] == a[i]);
            assert(shr(b)[0] == b[i]);
        } else {
            assert(shr(a)[i + 1] == a[i]);
            assert(shr(b)[i + 1] == b[i]);
        }
    }
    assert(a =~= b);
}

/// A permutation has a row for each position, and only one.
proof fn lemma_perm_row(p: Seq<usize>, n: nat, v: int)
    requires
        is_perm(p, n),
        0 <= v < n,
    ensures
        0 <= row_of(p, v as usize) < n,
        p[row_of(p, v as usize) as int] == v,
        forall|k: int| 0 <= k < n && p[k] == v ==> k == row_of(p, v as usize),
{
    let dom = below(n as int);
    let f = |k: int| p[k] as int;
    lemma_int_range(0, n as int);
    assert(injective_on(f, dom)) by {
        assert forall|x1: int, x2: int|
            dom.contains(x1) && dom.contains(x2) && #[trigger] f(x1) == #[trigger] f(x2) implies x1
            == x2 by {
            if x1 != x2 {
                assert(p[x1] != p[x2]);
            }
        }
    }
    let img = dom.map(f);
    lemma_map_size(dom, img, f);
    assert(img.subset_of(dom)) by {
        assert forall|y: int| img.contains(y) implies dom.contains(y) by {
            let x = choose|x: int| dom.contains(x) && f(x) == y;
        }
    }
    lemma_subset_equality(img, dom);
    assert(dom.contains(v));
    assert(img.contains(v));
    let x = choose|x: int| dom.contains(x) && f(x) == v;
    assert(0 <= x < p.len() && p[x] == v as usize);
    let r = row_of(p, v as usize) as int;
    assert(0 <= r < n && p[r] == v);
    assert forall|k: int| 0 <= k < n && p[k] == v implies k == r by {
        if k != r {
            assert(p[k] != p[r]);
        }
    }
}

/// The last byte of a row is the transform's byte for that row.
proof fn lemma_row_last(s: Seq<u8>, p: Seq<usize>, k: int)
    requires
        is_perm(p, s.len()),
        0 <= k < s.len(),
    ensures
        row_text(s, p, k).len() == s.len(),
        row_text(s, p, k).last() == bwt_out(s, p)[k],
        shr(row_text(s, p, k)) == rotation(s, prev(p[k] as int, s.len() as int)),
        shr(row_text(s, p, k)) == seq![bwt_out(s, p)[k]] + row_text(s, p, k).drop_last(),
{
    lemma_shr_rotation(s, p[k] as int);
}

/// Turning every row right permutes the rows, so a property holds of as many rows as
/// of turned rows.
proof fn lemma_count_shifted(s: Seq<u8>, p: Seq<usize>, pred: spec_fn(Seq<u8>) -> bool)
    requires
        is_perm(p, s.len()),
        s.len() > 0,
    ensures
        rows_where(s, p, pred).finite(),
        rows_where_shifted(s, p, pred).finite(),
        rows_where(s, p, pred).len() == rows_where_shifted(s, p, pred).len(),
{
    let n = s.len() as int;
    let sig = |k: int| row_of(p, prev(p[k] as int, n) as usize) as int;
    let a = rows_where(s, p, pred);
    let b = rows_where_shifted(s, p, pred);
    lemma_int_range(0, n);
    below(n).lemma_len_filter(|k: int| pred(row_text(s, p, k)));
    below(n).lemma_len_filter(|k: int| pred(shr(row_text(s, p, k))));
    assert forall|k: int| 0 <= k < n implies 0 <= #[trigger] sig(k) < n && row_text(s, p, sig(k))
        == shr(row_text(s, p, k)) by {
        lemma_row_last(s, p, k);
        lemma_perm_row(p, s.len(), prev(p[k] as int, n));
    }
    assert(injective_on(sig, b)) by {
        assert forall|x1: int, x2: int|
            b.contains(x1) && b.contains(x2) && #[trigger] sig(x1) == #[trigger] sig(x2) implies x1
            == x2 by {
            lemma_perm_row(p, s.len(), prev(p[x1] as int, n));
            lemma_perm_row(p, s.len(), prev(p[x2] as int, n));
            if x1 != x2 {
                assert(p[x1] != p[x2]);
            }
        }
    }
    assert(b.map(sig) =~= a) by {
        assert forall|m: int| b.map(sig).contains(m) implies a.contains(m) by {
            let k = choose|k: int| b.contains(k) && sig(k) == m;
        }
        assert forall|m: int| a.contains(m) implies b.map(sig).contains(m) by {
            let v = p[m] as int;
            let nv = if v + 1 == n {
                0
            } else {
                v + 1
            };
            lemma_perm_row(p, s.len(), nv);
            let k = row_of(p, nv as usize) as int;
            assert(prev(p[k] as int, n) == v);
            lemma_perm_row(p, s.len(), v);
            assert(sig(k) == m);
            assert(b.contains(k));
        }
    }
    lemma_map_size(b, a, sig);
}

/// How many positions below `m` hold a byte below `c`, and how many hold `c`.
proof fn lemma_positions_count(l: Seq<u8>, c: int, m: int)
    requires
        0 <= m <= l.len(),
    ensures
        positions_lt(l, c, m).finite(),
        positions_eq(l, c, m).finite(),
        positions_lt(l, c, m).len() == count_lt(l.take(m), c),
        positions_eq(l, c, m).len() == count_eq(l.take(m), c),
    decreases m,
{
    if m == 0 {
        assert(positions_lt(l, c, m) =~= Set::empty());
        assert(positions_eq(l, c, m) =~= Set::empty());
    } else {
        lemma_positions_count(l, c, m - 1);
        assert(l.take(m).drop_last() =~= l.take(m - 1));
        if (l[m - 1] as int) < c {
            assert(positions_lt(l, c, m) =~= positions_lt(l, c, m - 1).insert(m - 1));
        } else {
            assert(positions_lt(l, c, m) =~= positions_lt(l, c, m - 1));
        }
        if l[m - 1] as int == c {
            assert(positions_eq(l, c, m) =~= positions_eq(l, c, m - 1).insert(m - 1));
        } else {
            assert(positions_eq(l, c, m) =~= positions_eq(l, c, m - 1));
        }
    }
}

/// A finite set that holds the rows `0..m` has at least `m` elements; one within the
/// rows `0..m` has at most `m`.
proof fn lemma_range_bounds(x: Set<int>, m: int)
    requires
        x.finite(),
        0 <= m,
    ensures
        below(m).subset_of(x) ==> m <= x.len(),
        x.subset_of(below(m)) ==> x.len() <= m,
{
    lemma_int_range(0, m);
    if below(m).subset_of(x) {
        lemma_len_subset(below(m), x);
    }
    if x.subset_of(below(m)) {
        lemma_len_subset(x, below(m));
    }
}

/// The last-first mapping sends a row to a row that holds its rotation turned right.
pub proof fn lemma_lf_row(s: Seq<u8>, p: Seq<usize>, u: int)
    requires
        is_perm(p, s.len()),
        sorted_rotations(s, p),
        0 <= u < s.len(),
    ensures
        0 <= lf(bwt_out(s, p), u) < s.len(),
        row_text(s, p, lf(bwt_out(s, p), u)) == shr(row_text(s, p, u)),
{
    let n = s.len() as int;
    let l = bwt_out(s, p);
    let c = l[u] as int;
    let x = shr(row_text(s, p, u));
    let m = lf(l, u);
    lemma_lf_bounds(l, u);
    lemma_row_last(s, p, u);
    lemma_row_last(s, p, m);
    lemma_int_range(0, n);
    let plt = |r: Seq<u8>| lex_lt(r, x);
    let ple = |r: Seq<u8>| !lex_lt(x, r);
    lemma_count_shifted(s, p, plt);
    lemma_count_shifted(s, p, ple);
    assert(l.take(n) =~= l);
    lemma_positions_count(l, c, n);
    lemma_positions_count(l, c, u);
    lemma_positions_count(l, c, u + 1);
    lemma_count_eq_take_step(l, u, c);
    let clt = positions_lt(l, c, n);
    let eu = positions_eq(l, c, u);
    let eu1 = positions_eq(l, c, u + 1);
    // the rows whose turned rotation sorts before x
    let tlt = rows_where_shifted(s, p, plt);
    let d = below(n).filter(|k: int| l[k] as int == c && lex_lt(row_text(s, p, k), row_text(s, p, u)));
    assert forall|k: int| 0 <= k < n implies #[trigger] lex_lt(shr(row_text(s, p, k)), x) == ((
    l[k] as int) < c || (l[k] as int == c && lex_lt(row_text(s, p, k), row_text(s, p, u)))) by {
        lemma_row_last(s, p, k);
        lemma_lex_cons(l[k], row_text(s, p, k).drop_last(), l[u], row_text(s, p, u).drop_last());
        if l[k] as int == c {
            lemma_lex_same_last(row_text(s, p, k), row_text(s, p, u));
        }
    }
    assert(tlt =~= clt + d);
    assert(d.subset_of(eu)) by {
        assert forall|k: int| d.contains(k) implies eu.contains(k) by {
            if k >= u {
                if k == u {
                    lemma_lex_irreflexive(row_text(s, p, u));
                }
            }
        }
    }
    below(n).lemma_len_filter(|k: int| l[k] as int == c && lex_lt(row_text(s, p, k), row_text(s, p, u)));
    lemma_len_subset(d, eu);
    lemma_len_union(clt, d);
    assert(tlt.len() <= m);
    // the rows whose turned rotation does not sort after x
    let tle = rows_where_shifted(s, p, ple);
    assert forall|k: int| 0 <= k < n implies #[trigger] lex_lt(x, shr(row_text(s, p, k))) == (c < (
    l[k] as int) || (l[k] as int == c && lex_lt(row_text(s, p, u), row_text(s, p, k)))) by {
        lemma_row_last(s, p, k);
        lemma_lex_cons(l[u], row_text(s, p, u).drop_last(), l[k], row_text(s, p, k).drop_last());
        if l[k] as int == c {
            lemma_lex_same_last(row_text(s, p, u), row_text(s, p, k));
        }
    }
    assert((clt + eu1).subset_of(tle)) by {
        assert forall|k: int| (clt + eu1).contains(k) implies tle.contains(k) by {
            if eu1.contains(k) && !clt.contains(k) {
                if k == u {
                    lemma_lex_irreflexive(row_text(s, p, u));
                }
            }
        }
    }
    assert(clt.disjoint(eu1));
    lemma_set_disjoint_lens(clt, eu1);
    lemma_len_subset(clt + eu1, tle);
    assert(tle.len() >= m + 1);
    // compare the rotation of row m with x
    let slt = rows_where(s, p, plt);
    let sle = rows_where(s, p, ple);
    lemma_lex_total(row_text(s, p, m), x);
    if lex_lt(row_text(s, p, m), x) {
        assert(below(m + 1).subset_of(slt)) by {
            assert forall|k: int| below(m + 1).contains(k) implies slt.contains(k) by {
                if k < m {
                    lemma_lex_total(row_text(s, p, k), row_text(s, p, m));
                    if lex_lt(row_text(s, p, k), row_text(s, p, m)) {
                        lemma_lex_trans(row_text(s, p, k), row_text(s, p, m), x);
                    }
                }
            }
        }
        lemma_range_bounds(slt, m + 1);
        assert(false);
    }
    if lex_lt(x, row_text(s, p, m)) {
        assert(sle.subset_of(below(m))) by {
            assert forall|k: int| sle.contains(k) implies below(m).contains(k) by {
                if k >= m {
                    if k > m {
                        lemma_lex_total(row_text(s, p, m), row_text(s, p, k));
                        if lex_lt(row_text(s, p, m), row_text(s, p, k)) {
                            lemma_lex_trans(x, row_text(s, p, m), row_text(s, p, k));
                        }
                    }
                }
            }
        }
        lemma_range_bounds(sle, m);
        assert(false);
    }
}

/// Each step of the walk moves to the row that holds the next rotation.
proof fn lemma_walk_rows(s: Seq<u8>, p: Seq<usize>, start: int, j: nat)
    requires
        is_perm(p, s.len()),
        sorted_rotations(s, p),
        0 <= start < s.len(),
        row_text(s, p, start) == rotation(s, 1int % (s.len() as int)),
    ensures
        0 <= walk(bwt_out(s, p), start, j) < s.len(),
        row_text(s, p, walk(bwt_out(s, p), start, j)) == rotation(s, (j as int + 1) % (s.len() as int)),
    decreases j,
{
    let n = s.len() as int;
    let l = bwt_out(s, p);
    if j > 0 {
        lemma_walk_rows(s, p, start, (j - 1) as nat);
        let w = walk(l, start, (j - 1) as nat);
        lemma_lf_inverse(l, w);
        let u = lf_inverse(l, w);
        lemma_lf_row(s, p, u);
        let q = (j as int + 1) % n;
        lemma_shr_rotation(s, q);
        assert(prev(q, n) == (j as int) % n) by {
            assert((j as int + 1) % n == if (j as int) % n == n - 1 {
                0
            } else {
                (j as int) % n + 1
            }) by (nonlinear_arith)
                requires
                    n > 0,
            ;
        }
        lemma_row_last(s, p, u);
        lemma_shr_injective(row_text(s, p, u), rotation(s, q));
    }
}

/// Reading the last bytes along the walk from the row of the rotation that starts at
/// the second byte gives back the data.
proof fn lemma_walk_reads_data(s: Seq<u8>, p: Seq<usize>, start: int)
    requires
        is_perm(p, s.len()),
        sorted_rotations(s, p),
        0 <= start < s.len(),
        row_text(s, p, start) == rotation(s, 1int % (s.len() as int)),
    ensures
        inverse_bwt(bwt_out(s, p), start) == s,
{
    let n = s.len() as int;
    let l = bwt_out(s, p);
    assert forall|j: int| 0 <= j < n implies inverse_bwt(l, start)[j] == s[j] by {
        lemma_walk_rows(s, p, start, j as nat);
        let w = walk(l, start, j as nat);
        lemma_row_last(s, p, w);
        lemma_shr_rotation(s, (j + 1) % n);
        assert(prev((j + 1) % n, n) == j) by (nonlinear_arith)
            requires
                0 <= j < n,
        ;
    }
    assert(inverse_bwt(l, start) =~= s);
}

/// `bwt_decode` undoes `bwt_encode`: for any order of the rotations that
/// `bwt_encode` may have produced, decoding its output from its key gives back the data.
pub proof fn lemma_bwt_roundtrip(s: Seq<u8>, p: Seq<usize>)
    requires
        is_perm(p, s.len()),
        sorted_rotations(s, p),
    ensures
        inverse_bwt(bwt_out(s, p), row_of(p, 1) as int) == s,
{
    let n = s.len() as int;
    if n == 0 {
        assert(inverse_bwt(bwt_out(s, p), row_of(p, 1) as int) =~= s);
    } else if n == 1 {
        assert(!(exists|k: int| 0 <= k < p.len() && p[k] == 1));
        assert(row_of(p, 1) == 0);
        assert(p[0] == 0);
        lemma_walk_reads_data(s, p, 0);
    } else {
        lemma_perm_row(p, s.len(), 1);
        assert(1int % n == 1) by (nonlinear_arith)
            requires
                n > 1,
        ;
        assert(row_text(s, p, row_of(p, 1) as int) == rotation(s, 1));
        lemma_walk_reads_data(s, p, row_of(p, 1) as int);
    }
}

/// `bwt_ds::bwt_decode` undoes `bwt_ds::bwt_encode` once the key is counted from 1: one
/// step of the inverse mapping from the row of the original data reaches the row of the
/// rotation that starts at the second byte, and the walk from there gives back the data.
pub proof fn lemma_bwt_ds_roundtrip(s: Seq<u8>, p: Seq<usize>)
    requires
        is_perm(p, s.len()),
        sorted_rotations(s, p),
        s.len() > 0,
    ensures
        row_of(p, 0) < s.len(),
        inverse_bwt(bwt_out(s, p), first_row(bwt_out(s, p), row_of(p, 0) as int + 1)) == s,
{
    let n = s.len() as int;
    let l = bwt_out(s, p);
    lemma_perm_row(p, s.len(), 0);
    let key = row_of(p, 0) as int;
    lemma_lf_inverse(l, key);
    let u = lf_inverse(l, key);
    assert(row_text(s, p, u) == rotation(s, 1int % n)) by {
        lemma_lf_row(s, p, u);
        lemma_row_last(s, p, u);
        let q = 1int % n;
        lemma_shr_rotation(s, q);
        assert(prev(q, n) == 0) by (nonlinear_arith)
            requires
                n > 0,
                q == 1int % n,
        ;
        assert(row_text(s, p, key) == rotation(s, 0));
        lemma_shr_injective(row_text(s, p, u), rotation(s, q));
    }
    lemma_walk_reads_data(s, p, u);
}

/// From a row inside the block, the walk of `bwt_decode_test` is the walk of the inverse
/// mapping.
proof fn lemma_test_walk_inside(l: Seq<u8>, key: int, j: nat)
    requires
        0 <= key < l.len(),
    ensures
        test_walk(l, key, j) == walk(l, key, j),
    decreases j,
{
    if j > 0 {
        lemma_test_walk_inside(l, key, (j - 1) as nat);
        lemma_walk_bounds(l, key, (j - 1) as nat);
    }
}

/// A walk one step longer is the walk from the next row.
proof fn lemma_walk_shift(l: Seq<u8>, key: int, j: nat)
    ensures
        walk(l, key, j + 1) == walk(l, lf_inverse(l, key), j),
    decreases j,
{
    assert(walk(l, key, j + 1) == lf_inverse(l, walk(l, key, j)));
    if j == 0 {
        assert(walk(l, key, 0) == key);
        assert(walk(l, lf_inverse(l, key), 0) == lf_inverse(l, key));
    } else {
        lemma_walk_shift(l, key, (j - 1) as nat);
        assert((j - 1 + 1) as nat == j);
        assert(walk(l, key, j) == walk(l, lf_inverse(l, key), (j - 1) as nat));
        assert(walk(l, lf_inverse(l, key), j) == lf_inverse(l, walk(l, lf_inverse(l, key), (j - 1) as nat)));
    }
}

/// `bwt_ds::bwt_decode_test` undoes `bwt_ds::bwt_encode`: on the transform of `s` for a
/// sorting `p` of its rotations, the bytes read along its walk from the row of the
/// original data spell `s`.
pub proof fn lemma_bwt_test_roundtrip(s: Seq<u8>, p: Seq<usize>)
    requires
        is_perm(p, s.len()),
        sorted_rotations(s, p),
        s.len() > 0,
    ensures
        forall|j: int|
            0 <= j < s.len() ==> #[trigger] test_byte(
                bwt_out(s, p),
                test_walk(bwt_out(s, p), row_of(p, 0) as int, j as nat),
            ) == s[j],
{
    lemma_bwt_ds_roundtrip(s, p);
    let l = bwt_out(s, p);
    let key = row_of(p, 0) as int;
    assert(l.len() == s.len());
    assert forall|j: int| 0 <= j < s.len() implies #[trigger] test_byte(l, test_walk(l, key, j as nat)) == s[j] by {
        lemma_test_walk_inside(l, key, j as nat);
        lemma_walk_bounds(l, key, j as nat);
        lemma_walk_shift(l, key, j as nat);
        assert(walk(l, key, (j + 1) as nat) == lf_inverse(l, walk(l, key, j as nat)));
        assert(inverse_bwt(l, first_row(l, key + 1))[j] == s[j]);
        assert(first_row(l, key + 1) == lf_inverse(l, key));
    }
}

} // verus!
