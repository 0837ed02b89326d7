//! Mathematical model of bit streams: numbers as sequences of bits (most
//! significant bit first) and byte buffers as the concatenation of their bits.
use vstd::arithmetic::div_mod::*;
use vstd::arithmetic::power2::*;
use vstd::prelude::*;

verus! {

/// The `n` least significant bits of `v`, most significant bit first.
pub open spec fn bits_of(v: nat, n: nat) -> Seq<bool>
    decreases n,
{
    if n == 0 {
        Seq::empty()
    } else {
        bits_of(v / 2, (n - 1) as nat).push(v % 2 == 1)
    }
}

/// The number whose binary digits (most significant first) are `b`.
pub open spec fn bits_value(b: Seq<bool>) -> nat
    decreases b.len(),
{
    if b.len() == 0 {
        0
    } else {
        2 * bits_value(b.drop_last()) + (if b.last() {
            1nat
        } else {
            0nat
        })
    }
}

/// The bits of a byte buffer, each byte most significant bit first.
pub open spec fn bytes_bits(s: Seq<u8>) -> Seq<bool>
    decreases s.len(),
{
    if s.len() == 0 {
        Seq::empty()
    } else {
        bytes_bits(s.drop_last()) + bits_of(s.last() as nat, 8)
    }
}

/// A run of `n` zero bits.
pub open spec fn zero_bits(n: nat) -> Seq<bool> {
    Seq::new(n, |i: int| false)
}

pub proof fn lemma_bits_of_len(v: nat, n: nat)
    ensures
        bits_of(v, n).len() == n,
    decreases n,
{
    if n > 0 {
        lemma_bits_of_len(v / 2, (n - 1) as nat);
    }
}

/// Splitting the low `a + b` bits into the high `a` and the low `b` bits.
pub proof fn lemma_bits_of_split(v: nat, a: nat, b: nat)
    ensures
        bits_of(v, a + b) == bits_of(v / pow2(b), a) + bits_of(v, b),
    decreases b,
{
    lemma_pow2_pos(b);
    if b == 0 {
        assert(pow2(0) == 1) by {
            lemma_pow2(0);
            vstd::arithmetic::power::lemma_pow0(2);
        }
        assert(bits_of(v, a) + Seq::<bool>::empty() =~= bits_of(v, a));
    } else {
        lemma_bits_of_split(v / 2, a, (b - 1) as nat);
        lemma_pow2_unfold(b);
        lemma_pow2_pos((b - 1) as nat);
        lemma_div_denominator(v as int, 2, pow2((b - 1) as nat) as int);
        assert(v / 2 / pow2((b - 1) as nat) == v / pow2(b));
        assert(((a + b) - 1) as nat == a + (b - 1) as nat);
        assert(bits_of(v, a + b) =~= bits_of(v / 2, a + (b - 1) as nat).push(v % 2 == 1));
        assert(bits_of(v / pow2(b), a) + bits_of(v, b) =~= (bits_of(v / pow2(b), a) + bits_of(
            v / 2,
            (b - 1) as nat,
        )).push(v % 2 == 1));
    }
}

/// Only the low `n` bits of `v` matter.
pub proof fn lemma_bits_of_mod(v: nat, n: nat)
    ensures
        bits_of(v % pow2(n), n) == bits_of(v, n),
    decreases n,
{
    lemma_pow2_pos(n);
    if n > 0 {
        lemma_pow2_unfold(n);
        lemma_pow2_pos((n - 1) as nat);
        let m = v % pow2(n);
        // m / 2 == (v / 2) % pow2(n-1) and m % 2 == v % 2
        lemma_mod_breakdown(v as int, 2, pow2((n - 1) as nat) as int);
        lemma_fundamental_div_mod(v as int, 2);
        lemma_fundamental_div_mod(m as int, 2);
        let q = (v / 2) % pow2((n - 1) as nat);
        assert(m == 2 * q + v % 2);
        lemma_fundamental_div_mod_converse(m as int, 2, q as int, (v % 2) as int);
        lemma_bits_of_mod(v / 2, (n - 1) as nat);
    }
}

/// Bits of a number that fits in `n` bits are its own value.
pub proof fn lemma_bits_value_of(v: nat, n: nat)
    ensures
        bits_value(bits_of(v, n)) == v % pow2(n),
    decreases n,
{
    lemma_pow2_pos(n);
    lemma_bits_of_len(v, n);
    if n == 0 {
        assert(pow2(0) == 1) by {
            lemma_pow2(0);
            vstd::arithmetic::power::lemma_pow0(2);
        }
    } else {
        lemma_bits_value_of(v / 2, (n - 1) as nat);
        let b = bits_of(v, n);
        assert(b.drop_last() =~= bits_of(v / 2, (n - 1) as nat));
        lemma_pow2_unfold(n);
        lemma_pow2_pos((n - 1) as nat);
        lemma_mod_breakdown(v as int, 2, pow2((n - 1) as nat) as int);
    }
}

/// Bits of a value, read back, give the value.
pub proof fn lemma_bits_of_value(b: Seq<bool>)
    ensures
        bits_value(b) < pow2(b.len()),
        bits_of(bits_value(b), b.len()) == b,
    decreases b.len(),
{
    if b.len() == 0 {
        assert(pow2(0) == 1) by {
            lemma_pow2(0);
            vstd::arithmetic::power::lemma_pow0(2);
        }
        assert(bits_of(0, 0) =~= b);
    } else {
        lemma_bits_of_value(b.drop_last());
        lemma_pow2_unfold(b.len());
        let v = bits_value(b);
        let r: nat = if b.last() {
            1
        } else {
            0
        };
        assert(v == 2 * bits_value(b.drop_last()) + r);
        assert(v / 2 == bits_value(b.drop_last()) && v % 2 == r) by {
            lemma_fundamental_div_mod_converse(
                v as int,
                2,
                bits_value(b.drop_last()) as int,
                r as int,
            );
        }
        assert(bits_of(v, b.len()) =~= b.drop_last().push(b.last()));
        assert(b.drop_last().push(b.last()) =~= b);
    }
}

/// Value of the concatenation of two bit strings.
pub proof fn lemma_bits_value_append(a: Seq<bool>, b: Seq<bool>)
    ensures
        bits_value(a + b) == bits_value(a) * pow2(b.len()) + bits_value(b),
    decreases b.len(),
{
    if b.len() == 0 {
        assert(a + b =~= a);
        assert(pow2(0) == 1) by {
            lemma_pow2(0);
            vstd::arithmetic::power::lemma_pow0(2);
        }
    } else {
        lemma_bits_value_append(a, b.drop_last());
        assert((a + b).drop_last() =~= a + b.drop_last());
        assert((a + b).last() == b.last());
        lemma_pow2_unfold(b.len());
        let p = pow2((b.len() - 1) as nat);
        vstd::arithmetic::mul::lemma_mul_is_associative(bits_value(a) as int, p as int, 2);
        vstd::arithmetic::mul::lemma_mul_is_distributive_add(
            2,
            bits_value(a) as int * p as int,
            bits_value(b.drop_last()) as int,
        );
    }
}

pub proof fn lemma_bytes_bits_len(s: Seq<u8>)
    ensures
        bytes_bits(s).len() == 8 * s.len(),
    decreases s.len(),
{
    if s.len() > 0 {
        lemma_bytes_bits_len(s.drop_last());
        lemma_bits_of_len(s.last() as nat, 8);
    }
}

pub proof fn lemma_bytes_bits_push(s: Seq<u8>, b: u8)
    ensures
        bytes_bits(s.push(b)) == bytes_bits(s) + bits_of(b as nat, 8),
{
    assert(s.push(b).drop_last() =~= s);
}

pub proof fn lemma_bytes_bits_append(s: Seq<u8>, t: Seq<u8>)
    ensures
        bytes_bits(s + t) == bytes_bits(s) + bytes_bits(t),
    decreases t.len(),
{
    if t.len() == 0 {
        assert(s + t =~= s);
        assert(bytes_bits(s) + bytes_bits(t) =~= bytes_bits(s));
    } else {
        lemma_bytes_bits_append(s, t.drop_last());
        assert((s + t).drop_last() =~= s + t.drop_last());
        assert((s + t).last() == t.last());
        assert(bytes_bits(s) + bytes_bits(t) =~= bytes_bits(s) + bytes_bits(t.drop_last())
            + bits_of(t.last() as nat, 8));
    }
}

/// The bits of a byte buffer starting at byte `i` are the bits of that byte followed by the rest.
pub proof fn lemma_bytes_bits_skip(s: Seq<u8>, i: int)
    requires
        0 <= i < s.len(),
    ensures
        bytes_bits(s.skip(i)) == bits_of(s[i] as nat, 8) + bytes_bits(s.skip(i + 1)),
{
    assert(s.skip(i) =~= seq![s[i]] + s.skip(i + 1));
    lemma_bytes_bits_append(seq![s[i]], s.skip(i + 1));
    let one = seq![s[i]];
    assert(one.drop_last() =~= Seq::<u8>::empty());
    assert(bytes_bits(one.drop_last()) =~= Seq::<bool>::empty());
    assert(bytes_bits(one) == bytes_bits(one.drop_last()) + bits_of(one.last() as nat, 8));
    assert(bytes_bits(one) =~= bits_of(s[i] as nat, 8));
}

pub proof fn lemma_zero_bits_value(n: nat)
    ensures
        bits_value(zero_bits(n)) == 0,
    decreases n,
{
    if n > 0 {
        assert(zero_bits(n).drop_last() =~= zero_bits((n - 1) as nat));
        lemma_zero_bits_value((n - 1) as nat);
    }
}

pub proof fn lemma_bits_of_zero(n: nat)
    ensures
        bits_of(0, n) == zero_bits(n),
    decreases n,
{
    if n > 0 {
        lemma_bits_of_zero((n - 1) as nat);
        assert(bits_of(0, n) =~= zero_bits(n));
    }
}


/// Appending the `d` bits of `m` below the `qb` bits of `q`.
pub proof fn lemma_append_bits(q: nat, qb: nat, m: nat, d: nat)
    requires
        q < pow2(qb),
        m < pow2(d),
    ensures
        q * pow2(d) + m < pow2(qb + d),
        bits_of(q * pow2(d) + m, qb + d) == bits_of(q, qb) + bits_of(m, d),
{
    lemma_pow2_pos(d);
    lemma_pow2_pos(qb);
    let v = q * pow2(d) + m;
    lemma_fundamental_div_mod_converse(v as int, pow2(d) as int, q as int, m as int);
    lemma_bits_of_split(v, qb, d);
    lemma_bits_of_mod(v, d);
    lemma_pow2_adds(qb, d);
    vstd::arithmetic::mul::lemma_mul_inequality(q as int, pow2(qb) - 1, pow2(d) as int);
    vstd::arithmetic::mul::lemma_mul_is_distributive_sub_other_way(pow2(d) as int, pow2(qb) as int, 1);
}

/// Taking the top byte off a queue of `k + 8` bits.
pub proof fn lemma_take_top_byte(v: nat, k: nat)
    requires
        v < pow2(k + 8),
    ensures
        v / pow2(k) < 256,
        v % pow2(k) < pow2(k),
        bits_of(v, k + 8) == bits_of(v / pow2(k), 8) + bits_of(v % pow2(k), k),
{
    lemma_pow2_pos(k);
    lemma_pow2_adds(k, 8);
    lemma_small_pow2();
    lemma_bits_of_split(v, 8, k);
    lemma_bits_of_mod(v, k);
    assert(v / pow2(k) < 256) by {
        vstd::arithmetic::div_mod::lemma_div_is_ordered(v as int, (pow2(k) * 256 - 1) as int, pow2(k) as int);
        vstd::arithmetic::mul::lemma_mul_is_commutative(pow2(k) as int, 256);
        lemma_fundamental_div_mod_converse((pow2(k) * 256 - 1) as int, pow2(k) as int, 255, (pow2(k) - 1) as int);
    }
    vstd::arithmetic::div_mod::lemma_mod_pos_bound(v as int, pow2(k) as int);
    assert(8 + k == k + 8);
}

/// Small powers of two that the bit-level code needs.
pub proof fn lemma_small_pow2()
    ensures
        pow2(0) == 1,
        pow2(1) == 2,
        pow2(8) == 256,
        pow2(16) == 0x10000,
        pow2(24) == 0x1000000,
        pow2(32) == 0x100000000,
{
    lemma2_to64();
}

} // verus!
