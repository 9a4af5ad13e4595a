//! Bit-reversal permutation of a buffer whose length is a power of two.
use vstd::prelude::*;
use vstd::arithmetic::div_mod::{
    lemma_fundamental_div_mod, lemma_fundamental_div_mod_converse, lemma_mod_pos_bound,
};

verus! {

/// Two to the power `e`.
pub open spec fn two_pow(e: nat) -> nat
    decreases e,
{
    if e == 0 {
        1
    } else {
        2 * two_pow((e - 1) as nat)
    }
}

/// The lowest `bits` bits of `i`, written in reverse order.
pub open spec fn rev(i: nat, bits: nat) -> nat
    decreases bits,
{
    if bits == 0 {
        0
    } else {
        (i % 2) * two_pow((bits - 1) as nat) + rev(i / 2, (bits - 1) as nat)
    }
}

pub proof fn lemma_two_pow_pos(e: nat)
    ensures
        two_pow(e) >= 1,
    decreases e,
{
    if e > 0 {
        lemma_two_pow_pos((e - 1) as nat);
    }
}

/// Powers of two grow with the exponent.
pub proof fn lemma_two_pow_mono(a: nat, b: nat)
    requires
        a <= b,
    ensures
        two_pow(a) <= two_pow(b),
    decreases b,
{
    if a < b {
        lemma_two_pow_mono(a, (b - 1) as nat);
        lemma_two_pow_pos((b - 1) as nat);
    }
}

/// A reversed index stays below the size.
pub proof fn lemma_rev_bound(i: nat, bits: nat)
    ensures
        rev(i, bits) < two_pow(bits),
    decreases bits,
{
    if bits > 0 {
        let p = two_pow((bits - 1) as nat);
        lemma_rev_bound(i / 2, (bits - 1) as nat);
        assert((i % 2) * p <= p) by (nonlinear_arith)
            requires
                i % 2 <= 1,
        ;
    }
}

/// Reversing `bits + 1` bits moves the lowest bit to the top: equivalently,
/// the top bit comes down to the bottom.
proof fn lemma_rev_top(i: nat, b: nat)
    requires
        i < two_pow(b + 1),
    ensures
        rev(i, b + 1) == 2 * rev(i % two_pow(b), b) + i / two_pow(b),
    decreases b,
{
    let p = two_pow(b);
    lemma_two_pow_pos(b);
    if b == 0 {
        assert(two_pow(0) == 1);
        assert((i % 2) * two_pow(0) == i % 2);
        assert(rev(i, 1) == i % 2 + rev(i / 2, 0));
        assert(two_pow(1) == 2);
    } else {
        let c = (b - 1) as nat;
        let ph = two_pow(c);
        lemma_two_pow_pos(c);
        assert(p == 2 * ph);
        let q = i / p;
        let r = i % p;
        lemma_fundamental_div_mod(i as int, p as int);
        lemma_mod_pos_bound(i as int, p as int);
        let r0 = r % 2;
        let r1 = r / 2;
        lemma_fundamental_div_mod(r as int, 2);
        assert(r1 < ph);
        assert(i == 2 * (ph * q + r1) + r0) by (nonlinear_arith)
            requires
                i == q * p + r,
                r == 2 * r1 + r0,
                p == 2 * ph,
        ;
        lemma_fundamental_div_mod_converse(i as int, 2, (ph * q + r1) as int, r0 as int);
        assert(i / 2 == ph * q + r1);
        assert(i % 2 == r0);
        lemma_fundamental_div_mod_converse((i / 2) as int, ph as int, q as int, r1 as int);
        assert((i / 2) % ph == r1);
        assert((i / 2) / ph == q);
        assert(i / 2 < p) by (nonlinear_arith)
            requires
                i < 2 * p,
        ;
        lemma_rev_top(i / 2, c);
        assert(rev(r, b) == r0 * ph + rev(r1, c));
        assert(rev(i, b + 1) == r0 * p + rev(i / 2, b));
        assert(r0 * p == 2 * (r0 * ph)) by (nonlinear_arith)
            requires
                p == 2 * ph,
        ;
    }
}

/// Reversing the bits twice gives the index back.
pub proof fn lemma_rev_involution(i: nat, bits: nat)
    requires
        i < two_pow(bits),
    ensures
        rev(rev(i, bits), bits) == i,
    decreases bits,
{
    if bits > 0 {
        let b = (bits - 1) as nat;
        let p = two_pow(b);
        let lo = rev(i / 2, b);
        let r = rev(i, bits);
        lemma_rev_bound(i / 2, b);
        lemma_rev_bound(i, bits);
        assert(i / 2 < p);
        lemma_rev_involution(i / 2, b);
        lemma_rev_top(r, b);
        assert(r == (i % 2) * p + lo);
        lemma_fundamental_div_mod_converse(r as int, p as int, (i % 2) as int, lo as int);
    }
}

/// Bit reversal is a bijection of `[0, 2^bits)` onto itself.
pub proof fn lemma_rev_permutes(bits: nat)
    ensures
        forall|p: nat|
            p < two_pow(bits) ==> #[trigger] rev(p, bits) < two_pow(bits) && rev(rev(p, bits), bits)
                == p,
{
    assert forall|p: nat| p < two_pow(bits) implies #[trigger] rev(p, bits) < two_pow(bits) && rev(
        rev(p, bits),
        bits,
    ) == p by {
        lemma_rev_bound(p, bits);
        lemma_rev_involution(p, bits);
    }
}

pub proof fn lemma_two_pow_15()
    ensures
        two_pow(15) == 32768,
{
    reveal_with_fuel(two_pow, 16);
}

/// One step of reversing bits by shifting them, lowest first, into an
/// accumulator.
proof fn lemma_rev_step(i: nat, r: nat, v: nat, rest: nat, bits: nat)
    requires
        rev(i, bits) == r * two_pow(rest + 1) + rev(v, rest + 1),
    ensures
        rev(i, bits) == (2 * r + v % 2) * two_pow(rest) + rev(v / 2, rest),
{
    let p = two_pow(rest);
    assert(two_pow(rest + 1) == 2 * p);
    assert(rev(v, rest + 1) == (v % 2) * p + rev(v / 2, rest));
    assert(r * (2 * p) + (v % 2) * p == (2 * r + v % 2) * p) by (nonlinear_arith);
}

/// Two to the power `e`.
pub fn pow2_usize(e: usize) -> (r: usize)
    requires
        e <= 15,
    ensures
        r == two_pow(e as nat),
{
    let mut r: usize = 1;
    let mut t: usize = 0;
    while t < e
        invariant
            t <= e <= 15,
            r == two_pow(t as nat),
        decreases e - t,
    {
        proof {
            lemma_two_pow_mono((t + 1) as nat, 15);
            lemma_two_pow_15();
        }
        r = 2 * r;
        t = t + 1;
    }
    r
}

/// The index `i` with its lowest `bits` bits reversed.
pub fn reverse_index(i: usize, bits: usize) -> (j: usize)
    requires
        bits <= 15,
    ensures
        j == rev(i as nat, bits as nat),
{
    let mut r: usize = 0;
    let mut v: usize = i;
    let mut t: usize = 0;
    while t < bits
        invariant
            t <= bits <= 15,
            r < two_pow(t as nat),
            rev(i as nat, bits as nat) == r * two_pow((bits - t) as nat) + rev(
                v as nat,
                (bits - t) as nat,
            ),
        decreases bits - t,
    {
        proof {
            lemma_two_pow_mono((t + 1) as nat, 15);
            lemma_two_pow_15();
            lemma_rev_step(i as nat, r as nat, v as nat, (bits - t - 1) as nat, bits as nat);
        }
        r = 2 * r + v % 2;
        v = v / 2;
        t = t + 1;
    }
    assert(r * two_pow(0) == r);
    r
}

/// Permutes `x` so that position `p` holds what stood at the bit-reversed
/// position `rev(p)`. Each pair is swapped once, from its lower position.
pub fn bit_reverse_reorder<T: Copy>(x: &mut Vec<T>, log2_n: usize)
    requires
        old(x)@.len() == two_pow(log2_n as nat),
        log2_n <= 15,
    ensures
        final(x)@.len() == old(x)@.len(),
        forall|p: int|
            0 <= p < old(x)@.len() ==> #[trigger] final(x)@[p] == old(x)@[rev(
                p as nat,
                log2_n as nat,
            ) as int],
{
    let n = x.len();
    let ghost bits = log2_n as nat;
    let ghost orig = x@;
    proof {
        lemma_rev_permutes(bits);
    }
    let mut i: usize = 0;
    while i < n
        invariant
            n == x@.len() == orig.len() == two_pow(bits),
            bits == log2_n <= 15,
            i <= n,
            forall|p: nat|
                p < two_pow(bits) ==> #[trigger] rev(p, bits) < two_pow(bits) && rev(
                    rev(p, bits),
                    bits,
                ) == p,
            forall|p: int|
                0 <= p < n ==> #[trigger] x@[p] == if p < i || rev(p as nat, bits) < i {
                    orig[rev(p as nat, bits) as int]
                } else {
                    orig[p]
                },
        decreases n - i,
    {
        let j = reverse_index(i, log2_n);
        assert(rev(i as nat, bits) == j);
        assert(rev(j as nat, bits) == i);
        if j > i {
            let a = x[i];
            let b = x[j];
            x.set(i, b);
            x.set(j, a);
        }
        i = i + 1;
        assert forall|p: int| 0 <= p < n implies #[trigger] x@[p] == if p < i || rev(
            p as nat,
            bits,
        ) < i {
            orig[rev(p as nat, bits) as int]
        } else {
            orig[p]
        } by {
            if p != i - 1 && p != j {
                assert(rev(p as nat, bits) != i - 1);
            }
        }
    }
}

} // verus!
