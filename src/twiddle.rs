//! Twiddle factors read from a quarter-wave sine table.
//!
//! The table has `L` entries and a resolution of `Q = L + 1` steps per
//! quarter turn: entry `j` holds `-sin((j + 1) * pi / (2 * Q))`. An angle is
//! counted in those steps, so a full turn is `4 * Q` of them. The twiddle
//! factor of a merge of size `n` at position `k` is `e^(-2 pi i k / n)`, whose
//! angle is `k * stride` steps, with `stride = 4 * Q / n`.
use vstd::prelude::*;
use vstd::arithmetic::div_mod::{lemma_fundamental_div_mod, lemma_mod_pos_bound};
use crate::bitrev::{two_pow, lemma_two_pow_pos, pow2_usize};

verus! {

/// One entry of the sine table, taken as it stands or negated.
#[derive(Clone, Copy, Debug, PartialEq, Eq, Structural)]
pub struct TableRef {
    pub index: usize,
    pub negate: bool,
}

/// How to obtain a twiddle factor.
#[derive(Clone, Copy, Debug, PartialEq, Eq, Structural)]
pub enum Twiddle {
    /// Exactly `1 + 0i`.
    One,
    /// Exactly `0 - 1i`.
    MinusI,
    /// Real and imaginary parts read from the table.
    Table { re: TableRef, im: TableRef },
}

/// A table of `table_len` entries serves a merge of size `2^log2_n`: the size
/// divides a full turn of `4 * (table_len + 1)` steps.
pub open spec fn table_fits(table_len: nat, log2_n: nat) -> bool {
    table_len + 1 <= 0x2000_0000 && (4 * (table_len + 1)) % two_pow(log2_n) == 0
}

/// Steps of angle between two neighbouring twiddle factors of a merge of size `n`.
pub open spec fn stride_of(table_len: nat, n: nat) -> nat {
    (4 * (table_len + 1)) / n
}

/// A signed quarter-wave sine: `(sign, a)` stands for `sign * sin(a * pi / (2 * Q))`,
/// with `0 <= a <= Q`.
pub open spec fn ref_term(r: TableRef) -> (int, nat) {
    (if r.negate { 1int } else { -1int }, (r.index + 1) as nat)
}

/// The cosine of an angle of `a` steps in `[0, 2Q]`, as a signed quarter-wave sine.
pub open spec fn cos_term(a: nat, q: nat) -> (int, nat) {
    if a <= q {
        (1int, (q - a) as nat)
    } else {
        (-1int, (a - q) as nat)
    }
}

/// The negated sine of an angle of `a` steps in `[0, 2Q]`, as a signed quarter-wave sine.
pub open spec fn neg_sin_term(a: nat, q: nat) -> (int, nat) {
    if a <= q {
        (-1int, a)
    } else {
        (-1int, (2 * q - a) as nat)
    }
}

/// `t` is `cos(a) - i sin(a)` for an angle of `a` steps, with the table
/// entries it names inside the table.
pub open spec fn denotes(t: Twiddle, a: nat, table_len: nat) -> bool {
    let q = (table_len + 1) as nat;
    match t {
        Twiddle::One => a == 0,
        Twiddle::MinusI => a == q,
        Twiddle::Table { re, im } => {
            &&& re.index < table_len
            &&& im.index < table_len
            &&& ref_term(re) == cos_term(a, q)
            &&& ref_term(im) == neg_sin_term(a, q)
        },
    }
}

/// The twiddle factor of a merge of size `n` at position `k < n / 2`.
pub open spec fn twiddle_spec(k: nat, n: nat, table_len: nat) -> Twiddle {
    let m = n / 2;
    let u = m / 2;
    let stride = stride_of(table_len, n);
    if k == 0 {
        Twiddle::One
    } else if k < u {
        let s = k * stride;
        Twiddle::Table {
            re: TableRef { index: (table_len - s) as usize, negate: true },
            im: TableRef { index: (s - 1) as usize, negate: false },
        }
    } else if k == u {
        Twiddle::MinusI
    } else {
        let s = (k - u) * stride;
        Twiddle::Table {
            re: TableRef { index: (s - 1) as usize, negate: false },
            im: TableRef { index: (table_len - s) as usize, negate: false },
        }
    }
}

/// A table that fits a size fits every smaller power of two.
pub proof fn lemma_fits_smaller(table_len: nat, s: nat, log2_n: nat)
    requires
        table_fits(table_len, log2_n),
        s <= log2_n,
    ensures
        table_fits(table_len, s),
    decreases log2_n,
{
    if s < log2_n {
        let full = 4 * (table_len + 1);
        let p = two_pow((log2_n - 1) as nat);
        lemma_two_pow_pos((log2_n - 1) as nat);
        lemma_fundamental_div_mod(full as int, (2 * p) as int);
        let c = full / (2 * p);
        assert(full == p * (2 * c)) by (nonlinear_arith)
            requires
                full == (2 * p) * c + full % (2 * p),
                full % (2 * p) == 0,
        ;
        assert(full % p == 0) by {
            vstd::arithmetic::div_mod::lemma_mod_multiples_basic((2 * c) as int, p as int);
            assert((2 * c) * p == p * (2 * c)) by (nonlinear_arith);
        }
        lemma_fits_smaller(table_len, s, (log2_n - 1) as nat);
    }
}

/// The angle step of a merge of size `n = 2^log2_n >= 4`, as the quarter turn
/// split into `n / 4` parts.
proof fn lemma_stride(table_len: nat, log2_n: nat)
    requires
        table_fits(table_len, log2_n),
        log2_n >= 2,
    ensures
        (two_pow(log2_n) / 2) / 2 * stride_of(table_len, two_pow(log2_n)) == table_len + 1,
        stride_of(table_len, two_pow(log2_n)) >= 1,
        two_pow(log2_n) == 4 * ((two_pow(log2_n) / 2) / 2),
{
    let n = two_pow(log2_n);
    let q = table_len + 1;
    let u = two_pow((log2_n - 2) as nat);
    assert(n == 4 * u) by {
        assert(two_pow((log2_n - 1) as nat) == 2 * u);
    }
    assert((n / 2) / 2 == u);
    lemma_two_pow_pos((log2_n - 2) as nat);
    lemma_fundamental_div_mod((4 * q) as int, n as int);
    let stride = stride_of(table_len, n);
    assert(4 * q == n * stride);
    assert(q == u * stride) by (nonlinear_arith)
        requires
            4 * q == n * stride,
            n == 4 * u,
    ;
    assert(stride >= 1) by (nonlinear_arith)
        requires
            q == u * stride,
            q >= 1,
    ;
}

/// The twiddle factor of a merge of size `2^log2_n` at position `k`.
pub fn forward_twiddle(k: usize, log2_n: usize, table_len: usize) -> (t: Twiddle)
    requires
        log2_n <= 15,
        table_fits(table_len as nat, log2_n as nat),
        k < two_pow(log2_n as nat) / 2,
    ensures
        t == twiddle_spec(k as nat, two_pow(log2_n as nat), table_len as nat),
        denotes(t, k as nat * stride_of(table_len as nat, two_pow(log2_n as nat)), table_len as nat),
{
    let ghost n = two_pow(log2_n as nat);
    let ghost q = table_len as nat + 1;
    if k == 0 {
        return Twiddle::One;
    }
    assert(log2_n >= 2) by {
        if log2_n == 0 {
            assert(n == 1);
        } else if log2_n == 1 {
            assert(two_pow(0) == 1);
            assert(n == 2);
        }
    }
    proof {
        lemma_stride(table_len as nat, log2_n as nat);
    }
    let n_exec = pow2_usize(log2_n);
    let m = n_exec / 2;
    let u = m / 2;
    let stride = (table_len + 1) * 4 / n_exec;
    assert(stride == stride_of(table_len as nat, n));
    assert(u * stride == q);
    if k < u {
        assert(k * stride < u * stride && k * stride >= 1) by (nonlinear_arith)
            requires
                1 <= k < u,
                stride >= 1,
        ;
        let s = k * stride;
        Twiddle::Table {
            re: TableRef { index: table_len - s, negate: true },
            im: TableRef { index: s - 1, negate: false },
        }
    } else if k == u {
        Twiddle::MinusI
    } else {
        assert((k - u) * stride < u * stride && (k - u) * stride >= 1) by (nonlinear_arith)
            requires
                u < k < 2 * u,
                stride >= 1,
        ;
        assert(k * stride == u * stride + (k - u) * stride) by (nonlinear_arith)
            requires
                u < k,
        ;
        let s = (k - u) * stride;
        Twiddle::Table {
            re: TableRef { index: s - 1, negate: false },
            im: TableRef { index: table_len - s, negate: false },
        }
    }
}

} // verus!
