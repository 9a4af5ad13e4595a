//! The inverse complex transform, computed through the forward one:
//! `IFFT(x) = conj(CFFT(conj(x))) / N`, realised without conjugating by a
//! time reversal before the forward transform and a division by `N` after it.
use vstd::prelude::*;
use vstd::arithmetic::div_mod::{lemma_small_mod, lemma_mod_self_0};
use crate::bitrev::two_pow;
use crate::cfft::{forward, transform as cfft_transform};
use crate::twiddle::{Twiddle, table_fits};

verus! {

/// `after` is `before` read backwards in time: position `p` holds what stood
/// at `(n - p) mod n`, so position 0 stays.
pub open spec fn time_reversed<T>(before: Seq<T>, after: Seq<T>) -> bool {
    &&& after.len() == before.len()
    &&& forall|p: int|
        0 <= p < before.len() ==> #[trigger] after[p] == before[(before.len() - p) % (before.len() as int)]
}

/// `after` is `before` with `scale` applied to every sample.
pub open spec fn scaled<T, G: Fn(T) -> T>(before: Seq<T>, after: Seq<T>, scale: G) -> bool {
    &&& after.len() == before.len()
    &&& forall|p: int| 0 <= p < before.len() ==> #[trigger] scale.ensures((before[p],), after[p])
}

/// `after` is the inverse transform of `before`: time reversal, the forward
/// transform, then `scale` (a division by the size) on every sample.
pub open spec fn inverse<T, F: Fn(T, T, Twiddle) -> (T, T), G: Fn(T) -> T>(
    before: Seq<T>,
    after: Seq<T>,
    log2_n: nat,
    table_len: nat,
    bfly: F,
    scale: G,
) -> bool {
    exists|rev: Seq<T>, fwd: Seq<T>|
        time_reversed(before, rev) && forward(rev, fwd, log2_n, table_len, bfly) && scaled(
            fwd,
            after,
            scale,
        )
}

/// Time reversal undoes itself.
pub proof fn lemma_time_reversed_twice<T>(a: Seq<T>, b: Seq<T>, c: Seq<T>)
    requires
        a.len() >= 1,
        time_reversed(a, b),
        time_reversed(b, c),
    ensures
        c == a,
{
    let n = a.len() as int;
    assert forall|p: int| 0 <= p < n implies #[trigger] c[p] == a[p] by {
        let q = (n - p) % n;
        if p == 0 {
            lemma_mod_self_0(n);
        } else {
            lemma_small_mod((n - p) as nat, n as nat);
            lemma_small_mod(p as nat, n as nat);
            assert(q == n - p);
            assert((n - q) % n == p);
        }
        assert(c[p] == b[q]);
    }
    assert(c =~= a);
}

/// Swaps positions `i` and `n - i` for `i` in `[1, n / 2)`.
pub fn reorder<T: Copy>(x: &mut Vec<T>)
    requires
        old(x)@.len() == 1 || (old(x)@.len() >= 2 && old(x)@.len() % 2 == 0),
    ensures
        time_reversed(old(x)@, final(x)@),
{
    let n = x.len();
    let m = n / 2;
    let ghost orig = x@;
    let mut i: usize = 1;
    while i < m
        invariant
            n == x@.len() == orig.len() >= 1,
            n == 1 || n % 2 == 0,
            m == n / 2,
            1 <= i,
            i <= m || m == 0,
            forall|p: int|
                0 <= p < n ==> #[trigger] x@[p] == if (1 <= p < i) || (n - i < p < n) {
                    orig[(n - p) % (n as int)]
                } else {
                    orig[p]
                },
        decreases m - i,
    {
        let a = x[i];
        let b = x[n - i];
        x.set(i, b);
        x.set(n - i, a);
        i = i + 1;
        assert forall|p: int| 0 <= p < n implies #[trigger] x@[p] == if (1 <= p < i) || (n - i < p
            < n) {
            orig[(n - p) % (n as int)]
        } else {
            orig[p]
        } by {
            if p == i - 1 {
                lemma_small_mod((n - p) as nat, n as nat);
            } else if p == n - (i - 1) {
                lemma_small_mod((i - 1) as nat, n as nat);
            }
        }
    }
    assert forall|p: int| 0 <= p < n implies #[trigger] x@[p] == orig[(n - p) % (n as int)] by {
        if p == 0 {
            lemma_mod_self_0(n as int);
        } else if 1 <= p < i || n - i < p < n {
        } else {
            assert(p == n - p);
            lemma_small_mod(p as nat, n as nat);
        }
    }
}

/// Applies `scale` to every sample of `x`.
pub fn normalize<T: Copy, G: Fn(T) -> T>(x: &mut Vec<T>, scale: &G)
    requires
        forall|a: T| #[trigger] scale.requires((a,)),
    ensures
        scaled(old(x)@, final(x)@, *scale),
{
    let ghost orig = x@;
    let mut i: usize = 0;
    while i < x.len()
        invariant
            x@.len() == orig.len(),
            i <= x@.len(),
            forall|a: T| #[trigger] scale.requires((a,)),
            forall|p: int| 0 <= p < i ==> #[trigger] scale.ensures((orig[p],), x@[p]),
            forall|p: int| i <= p < x@.len() ==> #[trigger] x@[p] == orig[p],
        decreases x@.len() - i,
    {
        let c = scale(x[i]);
        x.set(i, c);
        i = i + 1;
    }
}

/// The in-place inverse transform of a buffer of size `2^log2_n`; `scale`
/// divides a sample by the size.
pub fn transform<T: Copy, F: Fn(T, T, Twiddle) -> (T, T), G: Fn(T) -> T>(
    x: &mut Vec<T>,
    log2_n: usize,
    table_len: usize,
    bfly: &F,
    scale: &G,
)
    requires
        old(x)@.len() == two_pow(log2_n as nat),
        log2_n <= 15,
        table_fits(table_len as nat, log2_n as nat),
        forall|a: T, b: T, w: Twiddle| #[trigger] bfly.requires((a, b, w)),
        forall|a: T| #[trigger] scale.requires((a,)),
    ensures
        final(x)@.len() == old(x)@.len(),
        inverse(old(x)@, final(x)@, log2_n as nat, table_len as nat, *bfly, *scale),
{
    let ghost orig = x@;
    proof {
        crate::bitrev::lemma_two_pow_pos(log2_n as nat);
        if log2_n > 0 {
            assert(x@.len() == 2 * two_pow((log2_n - 1) as nat));
        }
    }
    reorder(x);
    let ghost rev = x@;
    cfft_transform(x, log2_n, table_len, bfly);
    let ghost fwd = x@;
    normalize(x, scale);
    assert(time_reversed(orig, rev) && forward(rev, fwd, log2_n as nat, table_len as nat, *bfly)
        && scaled(fwd, x@, *scale));
}

} // verus!
