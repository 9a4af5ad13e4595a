//! The forward complex transform: bit-reversal reorder, then radix-2
//! decimation-in-time butterflies, stage by stage.
//!
//! The engine moves samples of any type `T`; the arithmetic of one butterfly,
//! `(a, b, w) -> (a + w * b, a - w * b)`, is handed in by the caller.
use vstd::prelude::*;
use vstd::arithmetic::div_mod::lemma_fundamental_div_mod_converse;
use crate::bitrev::{
    two_pow, rev, lemma_two_pow_pos, lemma_two_pow_mono, lemma_two_pow_15, pow2_usize,
    bit_reverse_reorder,
};
use crate::twiddle::{Twiddle, table_fits, twiddle_spec, forward_twiddle, lemma_fits_smaller};

verus! {

/// One butterfly: combine the samples at `top` and `bottom` with `twiddle`.
#[derive(Clone, Copy, Debug, PartialEq, Eq, Structural)]
pub struct Butterfly {
    pub top: usize,
    pub bottom: usize,
    pub twiddle: Twiddle,
}

/// Number of butterflies of a transform of size `2^log2_n`.
pub open spec fn butterfly_count(log2_n: nat) -> nat {
    log2_n * (two_pow(log2_n) / 2)
}

/// The `t`-th butterfly of a transform of size `n = 2^log2_n`. The butterflies
/// run in stages of `n / 2`; stage `s` merges blocks of size `2m`, `m = 2^s`,
/// and its butterfly at offset `k < m` in block `g` combines positions
/// `2mg + k` and `2mg + k + m` with the twiddle factor `e^(-2 pi i k / 2m)`.
pub open spec fn butterfly_spec(log2_n: nat, t: nat, table_len: nat) -> Butterfly {
    let half = two_pow(log2_n) / 2;
    let stage = t / half;
    let m = two_pow(stage);
    let g = (t % half) / m;
    let k = (t % half) % m;
    let top = g * (2 * m) + k;
    Butterfly {
        top: top as usize,
        bottom: (top + m) as usize,
        twiddle: twiddle_spec(k, 2 * m, table_len),
    }
}

/// `after` is `before` with butterfly `op` applied through `bfly`.
pub open spec fn applies<T, F: Fn(T, T, Twiddle) -> (T, T)>(
    before: Seq<T>,
    after: Seq<T>,
    op: Butterfly,
    bfly: F,
) -> bool {
    &&& bfly.ensures(
        (before[op.top as int], before[op.bottom as int], op.twiddle),
        (after[op.top as int], after[op.bottom as int]),
    )
    &&& after == before.update(op.top as int, after[op.top as int]).update(
        op.bottom as int,
        after[op.bottom as int],
    )
}

/// `trace` runs from `before` through the butterflies of the schedule, one
/// per step, to `after`.
pub open spec fn schedule_trace<T, F: Fn(T, T, Twiddle) -> (T, T)>(
    trace: Seq<Seq<T>>,
    before: Seq<T>,
    after: Seq<T>,
    log2_n: nat,
    table_len: nat,
    bfly: F,
) -> bool {
    &&& trace.len() == butterfly_count(log2_n) + 1
    &&& trace[0] == before
    &&& trace.last() == after
    &&& forall|t: int|
        0 <= t < butterfly_count(log2_n) ==> #[trigger] applies(
            trace[t],
            trace[t + 1],
            butterfly_spec(log2_n, t as nat, table_len),
            bfly,
        )
}

pub proof fn lemma_two_pow_add(a: nat, b: nat)
    ensures
        two_pow(a + b) == two_pow(a) * two_pow(b),
    decreases b,
{
    if b == 0 {
        assert(two_pow(0) == 1);
        assert(a + b == a);
    } else {
        lemma_two_pow_add(a, (b - 1) as nat);
        assert(two_pow(b) == 2 * two_pow((b - 1) as nat));
        assert(two_pow(a + b) == 2 * two_pow((a + b - 1) as nat));
        assert(two_pow(a) * (2 * two_pow((b - 1) as nat)) == 2 * (two_pow(a) * two_pow(
            (b - 1) as nat,
        ))) by (nonlinear_arith);
    }
}

/// Where the loops of `compute_butterflies` stand in the schedule.
proof fn lemma_schedule_at(log2_n: nat, stage: nat, g: nat, k: nat, table_len: nat)
    requires
        stage < log2_n,
        g < two_pow((log2_n - 1 - stage) as nat),
        k < two_pow(stage),
    ensures
        ({
            let m = two_pow(stage);
            let half = two_pow(log2_n) / 2;
            let top = g * (2 * m) + k;
            &&& half == m * two_pow((log2_n - 1 - stage) as nat)
            &&& top + m < two_pow(log2_n)
            &&& stage * half + g * m + k < butterfly_count(log2_n)
            &&& butterfly_spec(log2_n, stage * half + g * m + k, table_len) == Butterfly {
                top: top as usize,
                bottom: (top + m) as usize,
                twiddle: twiddle_spec(k, 2 * m, table_len),
            }
        }),
{
    let m = two_pow(stage);
    let groups = two_pow((log2_n - 1 - stage) as nat);
    let n = two_pow(log2_n);
    let half = n / 2;
    lemma_two_pow_pos(stage);
    lemma_two_pow_pos((log2_n - 1 - stage) as nat);
    lemma_two_pow_add(stage, (log2_n - 1 - stage) as nat);
    assert(n == 2 * two_pow((log2_n - 1) as nat));
    assert(half == m * groups);
    let r = g * m + k;
    let t = stage * half + r;
    assert(g * m + m <= m * groups) by (nonlinear_arith)
        requires
            g + 1 <= groups,
    ;
    assert(r < half);
    lemma_fundamental_div_mod_converse(t as int, half as int, stage as int, r as int);
    lemma_fundamental_div_mod_converse(r as int, m as int, g as int, k as int);
    assert(g * (2 * m) == 2 * (g * m)) by (nonlinear_arith);
    assert(g * (2 * m) + k + m < n);
    assert(t < butterfly_count(log2_n)) by (nonlinear_arith)
        requires
            stage < log2_n,
            r < half,
            t == stage * half + r,
            butterfly_count(log2_n) == log2_n * half,
    ;
}

/// Runs every butterfly of a transform of size `2^log2_n` on `x`, in
/// schedule order, combining each pair through `bfly`.
pub fn compute_butterflies<T: Copy, F: Fn(T, T, Twiddle) -> (T, T)>(
    x: &mut Vec<T>,
    log2_n: usize,
    table_len: usize,
    bfly: &F,
)
    requires
        old(x)@.len() == two_pow(log2_n as nat),
        log2_n <= 15,
        table_fits(table_len as nat, log2_n as nat),
        forall|a: T, b: T, w: Twiddle| #[trigger] bfly.requires((a, b, w)),
    ensures
        final(x)@.len() == old(x)@.len(),
        exists|trace: Seq<Seq<T>>|
            schedule_trace(
                trace,
                old(x)@,
                final(x)@,
                log2_n as nat,
                table_len as nat,
                *bfly,
            ),
{
    let ghost orig = x@;
    let ghost bits = log2_n as nat;
    let ghost l = table_len as nat;
    let n = pow2_usize(log2_n);
    let half = n / 2;
    let ghost mut trace: Seq<Seq<T>> = seq![x@];
    let mut stage: usize = 0;
    let mut m: usize = 1;
    while stage < log2_n
        invariant
            n == two_pow(bits) == x@.len(),
            half == n / 2,
            bits == log2_n <= 15,
            l == table_len,
            table_fits(l, bits),
            forall|a: T, b: T, w: Twiddle| #[trigger] bfly.requires((a, b, w)),
            stage <= log2_n,
            m == two_pow(stage as nat),
            trace.len() == stage * half + 1,
            trace[0] == orig,
            trace.last() == x@,
            forall|t: int|
                0 <= t < stage * half ==> #[trigger] applies(
                    trace[t],
                    trace[t + 1],
                    butterfly_spec(bits, t as nat, l),
                    *bfly,
                ),
        decreases log2_n - stage,
    {
        let groups = pow2_usize(log2_n - 1 - stage);
        proof {
            lemma_fits_smaller(l, (stage + 1) as nat, bits);
            lemma_two_pow_pos((log2_n - 1 - stage) as nat);
            lemma_two_pow_pos(stage as nat);
            lemma_schedule_at(bits, stage as nat, 0, 0, l);
            assert(m <= half && groups <= half) by (nonlinear_arith)
                requires
                    half == m * groups,
                    m >= 1,
                    groups >= 1,
            ;
        }
        let mut g: usize = 0;
        while g < groups
            invariant
                n == two_pow(bits) == x@.len(),
                half == n / 2,
                bits == log2_n <= 15,
                l == table_len,
                table_fits(l, (stage + 1) as nat),
                forall|a: T, b: T, w: Twiddle| #[trigger] bfly.requires((a, b, w)),
                stage < log2_n,
                m == two_pow(stage as nat),
                groups == two_pow((log2_n - 1 - stage) as nat),
                half == m * groups,
                m <= half,
                groups <= half,
                g <= groups,
                trace.len() == stage * half + g * m + 1,
                trace[0] == orig,
                trace.last() == x@,
                forall|t: int|
                    0 <= t < stage * half + g * m ==> #[trigger] applies(
                        trace[t],
                        trace[t + 1],
                        butterfly_spec(bits, t as nat, l),
                        *bfly,
                    ),
            decreases groups - g,
        {
            let mut k: usize = 0;
            while k < m
                invariant
                    n == two_pow(bits) == x@.len(),
                    half == n / 2,
                    bits == log2_n <= 15,
                    l == table_len,
                    table_fits(l, (stage + 1) as nat),
                    forall|a: T, b: T, w: Twiddle| #[trigger] bfly.requires((a, b, w)),
                    stage < log2_n,
                    m == two_pow(stage as nat),
                    groups == two_pow((log2_n - 1 - stage) as nat),
                    half == m * groups,
                    m <= half,
                    groups <= half,
                    g < groups,
                    k <= m,
                    trace.len() == stage * half + g * m + k + 1,
                    trace[0] == orig,
                    trace.last() == x@,
                    forall|t: int|
                        0 <= t < stage * half + g * m + k ==> #[trigger] applies(
                            trace[t],
                            trace[t + 1],
                            butterfly_spec(bits, t as nat, l),
                            *bfly,
                        ),
                decreases m - k,
            {
                proof {
                    lemma_schedule_at(bits, stage as nat, g as nat, k as nat, l);
                    assert(g * (2 * m) + k + m < n);
                    assert(g * (2 * m) == g * 2 * m) by (nonlinear_arith);
                    assert(g * 2 <= n);
                    assert(two_pow((stage + 1) as nat) == 2 * m);
                }
                let top = g * 2 * m + k;
                let bottom = top + m;
                let w = forward_twiddle(k, stage + 1, table_len);
                let ghost before = x@;
                let (a, b) = bfly(x[top], x[bottom], w);
                x.set(top, a);
                x.set(bottom, b);
                proof {
                    let t = stage * half + g * m + k;
                    let op = butterfly_spec(bits, t as nat, l);
                    assert(op == Butterfly { top, bottom, twiddle: w });
                    assert(x@ == before.update(top as int, a).update(bottom as int, b));
                    assert(applies(before, x@, op, *bfly));
                    let old_trace = trace;
                    trace = trace.push(x@);
                    assert forall|u: int|
                        0 <= u < stage * half + g * m + k + 1 implies #[trigger] applies(
                        trace[u],
                        trace[u + 1],
                        butterfly_spec(bits, u as nat, l),
                        *bfly,
                    ) by {
                        if u < t {
                            assert(trace[u] == old_trace[u]);
                            assert(trace[u + 1] == old_trace[u + 1]);
                        }
                    }
                }
                k = k + 1;
            }
            proof {
                assert((g + 1) * m == g * m + m) by (nonlinear_arith);
            }
            g = g + 1;
        }
        proof {
            assert((stage + 1) * half == stage * half + groups * m) by (nonlinear_arith)
                requires
                    half == m * groups,
            ;
            lemma_two_pow_pos(stage as nat);
        }
        stage = stage + 1;
        m = 2 * m;
    }
    proof {
        assert(butterfly_count(bits) == stage * half);
        assert(schedule_trace(trace, orig, x@, bits, l, *bfly));
    }
}

/// `after` is `before` with each position `p` holding what stood at the
/// bit-reversed position `rev(p)`.
pub open spec fn bit_reversed<T>(before: Seq<T>, after: Seq<T>, log2_n: nat) -> bool {
    &&& after.len() == before.len()
    &&& forall|p: int|
        0 <= p < before.len() ==> #[trigger] after[p] == before[rev(p as nat, log2_n) as int]
}

/// `after` is the forward transform of `before`: bit-reversal reorder, then
/// every butterfly of the schedule through `bfly`.
pub open spec fn forward<T, F: Fn(T, T, Twiddle) -> (T, T)>(
    before: Seq<T>,
    after: Seq<T>,
    log2_n: nat,
    table_len: nat,
    bfly: F,
) -> bool {
    exists|mid: Seq<T>, trace: Seq<Seq<T>>|
        bit_reversed(before, mid, log2_n) && schedule_trace(
            trace,
            mid,
            after,
            log2_n,
            table_len,
            bfly,
        )
}

/// The in-place forward transform of a buffer of size `2^log2_n`.
pub fn transform<T: Copy, F: Fn(T, T, Twiddle) -> (T, T)>(
    x: &mut Vec<T>,
    log2_n: usize,
    table_len: usize,
    bfly: &F,
)
    requires
        old(x)@.len() == two_pow(log2_n as nat),
        log2_n <= 15,
        table_fits(table_len as nat, log2_n as nat),
        forall|a: T, b: T, w: Twiddle| #[trigger] bfly.requires((a, b, w)),
    ensures
        final(x)@.len() == old(x)@.len(),
        forward(old(x)@, final(x)@, log2_n as nat, table_len as nat, *bfly),
{
    let ghost orig = x@;
    bit_reverse_reorder(x, log2_n);
    let ghost mid = x@;
    assert(bit_reversed(orig, mid, log2_n as nat));
    compute_butterflies(x, log2_n, table_len, bfly);
    let ghost trace = choose|trace: Seq<Seq<T>>|
        schedule_trace(trace, mid, x@, log2_n as nat, table_len as nat, *bfly);
    assert(bit_reversed(orig, mid, log2_n as nat) && schedule_trace(
        trace,
        mid,
        x@,
        log2_n as nat,
        table_len as nat,
        *bfly,
    ));
}

/// The bit-reversal reorder undoes itself.
pub proof fn lemma_bit_reversed_twice<T>(a: Seq<T>, b: Seq<T>, c: Seq<T>, log2_n: nat)
    requires
        a.len() == two_pow(log2_n),
        bit_reversed(a, b, log2_n),
        bit_reversed(b, c, log2_n),
    ensures
        c == a,
{
    crate::bitrev::lemma_rev_permutes(log2_n);
    assert forall|p: int| 0 <= p < a.len() implies #[trigger] c[p] == a[p] by {
        assert(c[p] == b[rev(p as nat, log2_n) as int]);
    }
    assert(c =~= a);
}

/// What the `t`-th butterfly of stage `stage` touches, in terms of the
/// offset of `t` within its stage.
proof fn lemma_in_stage(log2_n: nat, stage: nat, t: nat, table_len: nat)
    requires
        stage < log2_n <= 15,
        stage * (two_pow(log2_n) / 2) <= t < (stage + 1) * (two_pow(log2_n) / 2),
    ensures
        ({
            let half = two_pow(log2_n) / 2;
            let m = two_pow(stage);
            let r = (t - stage * half) as nat;
            let op = butterfly_spec(log2_n, t, table_len);
            &&& op.top == (r / m) * (2 * m) + r % m
            &&& op.bottom == op.top + m
            &&& r % m < m
            &&& r / m < two_pow((log2_n - 1 - stage) as nat)
            &&& r == (r / m) * m + r % m
        }),
{
    let half = two_pow(log2_n) / 2;
    let m = two_pow(stage);
    let groups = two_pow((log2_n - 1 - stage) as nat);
    let r = (t - stage * half) as nat;
    lemma_two_pow_pos(stage);
    lemma_two_pow_pos((log2_n - 1 - stage) as nat);
    lemma_schedule_at(log2_n, stage, 0, 0, table_len);
    assert((stage + 1) * half == stage * half + half) by (nonlinear_arith);
    lemma_fundamental_div_mod_converse(t as int, half as int, stage as int, r as int);
    vstd::arithmetic::div_mod::lemma_fundamental_div_mod(r as int, m as int);
    vstd::arithmetic::div_mod::lemma_mod_pos_bound(r as int, m as int);
    assert(t / half == stage && t % half == r);
    assert(r / m < groups) by {
        if r / m >= groups {
            assert((r / m) * m >= groups * m) by (nonlinear_arith)
                requires
                    r / m >= groups,
            ;
        }
    }
    lemma_schedule_at(log2_n, stage, r / m, r % m, table_len);
    lemma_two_pow_mono(log2_n, 15);
    lemma_two_pow_15();
}

/// Each stage of the schedule pairs every position with exactly one other:
/// position `p` is the top or the bottom of one butterfly of the stage and of
/// no other.
pub proof fn lemma_stage_pairs_each_once(log2_n: nat, stage: nat, p: nat, table_len: nat)
    requires
        stage < log2_n <= 15,
        p < two_pow(log2_n),
    ensures
        ({
            let half = two_pow(log2_n) / 2;
            let touches = |t: nat|
                butterfly_spec(log2_n, t, table_len).top == p || butterfly_spec(
                    log2_n,
                    t,
                    table_len,
                ).bottom == p;
            &&& exists|t: nat|
                stage * half <= t < (stage + 1) * half && #[trigger] touches(t)
            &&& forall|t1: nat, t2: nat|
                stage * half <= t1 < (stage + 1) * half && stage * half <= t2 < (stage + 1)
                    * half && #[trigger] touches(t1) && #[trigger] touches(t2) ==> t1 == t2
        }),
{
    let n = two_pow(log2_n);
    let half = n / 2;
    let m = two_pow(stage);
    let groups = two_pow((log2_n - 1 - stage) as nat);
    let touches = |t: nat|
        butterfly_spec(log2_n, t, table_len).top == p || butterfly_spec(
            log2_n,
            t,
            table_len,
        ).bottom == p;
    lemma_two_pow_pos(stage);
    lemma_two_pow_pos((log2_n - 1 - stage) as nat);
    lemma_schedule_at(log2_n, stage, 0, 0, table_len);
    vstd::arithmetic::div_mod::lemma_fundamental_div_mod(p as int, (2 * m) as int);
    vstd::arithmetic::div_mod::lemma_mod_pos_bound(p as int, (2 * m) as int);
    let g = p / (2 * m);
    let j = p % (2 * m);
    let k = if j < m {
        j
    } else {
        (j - m) as nat
    };
    assert(n == 2 * (m * groups));
    assert(g < groups) by {
        if g >= groups {
            assert(g * (2 * m) >= groups * (2 * m)) by (nonlinear_arith)
                requires
                    g >= groups,
            ;
            assert(groups * (2 * m) == n) by (nonlinear_arith)
                requires
                    n == 2 * (m * groups),
            ;
        }
    }
    // the one butterfly that touches p
    lemma_schedule_at(log2_n, stage, g, k, table_len);
    let t0 = stage * half + g * m + k;
    lemma_two_pow_mono(log2_n, 15);
    lemma_two_pow_15();
    assert(touches(t0));
    assert(g * m + k < half) by (nonlinear_arith)
        requires
            g < groups,
            k < m,
            half == m * groups,
    ;
    assert((stage + 1) * half == stage * half + half) by (nonlinear_arith);
    // any butterfly of the stage that touches p is that one
    assert forall|t: nat|
        stage * half <= t < (stage + 1) * half && #[trigger] touches(t) implies t == t0 by {
        lemma_in_stage(log2_n, stage, t, table_len);
        let r = (t - stage * half) as nat;
        let g1 = r / m;
        let k1 = r % m;
        if butterfly_spec(log2_n, t, table_len).top == p {
            lemma_fundamental_div_mod_converse(p as int, (2 * m) as int, g1 as int, k1 as int);
        } else {
            lemma_fundamental_div_mod_converse(
                p as int,
                (2 * m) as int,
                g1 as int,
                (k1 + m) as int,
            );
        }
    }
}

/// A forward transform of size 2 is the single butterfly of positions 0 and
/// 1 with twiddle factor exactly 1, giving `[a + b, a - b]`.
pub proof fn lemma_two_point<T, F: Fn(T, T, Twiddle) -> (T, T)>(
    before: Seq<T>,
    after: Seq<T>,
    table_len: nat,
    bfly: F,
)
    requires
        before.len() == 2,
        forward(before, after, 1, table_len, bfly),
    ensures
        after.len() == 2,
        bfly.ensures((before[0], before[1], Twiddle::One), (after[0], after[1])),
{
    let (mid, trace) = choose|mid: Seq<T>, trace: Seq<Seq<T>>|
        bit_reversed(before, mid, 1) && schedule_trace(trace, mid, after, 1, table_len, bfly);
    assert(two_pow(1) == 2 && two_pow(0) == 1);
    assert(rev(0, 1) == 0 && rev(1, 1) == 1) by {
        reveal_with_fuel(rev, 2);
    }
    assert(mid[0] == before[0] && mid[1] == before[1]);
    assert(butterfly_count(1) == 1);
    lemma_schedule_at(1, 0, 0, 0, table_len);
    let op = butterfly_spec(1, 0, table_len);
    assert(op == Butterfly { top: 0, bottom: 1, twiddle: Twiddle::One });
    assert(applies(trace[0], trace[1], op, bfly));
}

} // verus!
