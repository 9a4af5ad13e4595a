//! Transforms of real signals. An `N`-point real signal is packed into `N / 2`
//! complex samples (adjacent values become the real and imaginary parts of
//! one), transformed with an `N / 2`-point complex transform, and separated
//! into the first `N / 2` bins of its spectrum by a recombination pass. The
//! real coefficient at the Nyquist frequency travels in the imaginary part of
//! bin 0. The inverse runs the same steps backwards.
use vstd::prelude::*;
use crate::bitrev::{two_pow, lemma_two_pow_pos, lemma_two_pow_mono, lemma_two_pow_15};
use crate::cfft::{forward, transform as cfft_transform};
use crate::ifft::{inverse, transform as ifft_transform};
use crate::twiddle::{Twiddle, table_fits, twiddle_spec, forward_twiddle, lemma_fits_smaller};

verus! {

/// The two samples of the recombination pass that stand alone.
#[derive(Clone, Copy, Debug, PartialEq, Eq, Structural)]
pub enum Edge {
    /// Bin 0: the DC value with the Nyquist coefficient packed beside it.
    Dc,
    /// Bin `N / 4`, its own mirror image.
    Middle,
}

/// Adjacent pairs of `x` as single samples.
pub open spec fn packed<T>(x: Seq<T>) -> Seq<(T, T)> {
    Seq::new(x.len() / 2, |i: int| (x[2 * i], x[2 * i + 1]))
}

/// Each pair of `y` as two adjacent samples.
pub open spec fn unpacked<T>(y: Seq<(T, T)>) -> Seq<T> {
    Seq::new(
        2 * y.len(),
        |p: int|
            if p % 2 == 0 {
                y[p / 2].0
            } else {
                y[p / 2].1
            },
    )
}

/// Packing a buffer of even length into pairs and unpacking it again gives
/// the same values back.
pub proof fn lemma_pack_unpack<T>(x: Seq<T>)
    requires
        x.len() % 2 == 0,
    ensures
        unpacked(packed(x)) == x,
{
    let y = unpacked(packed(x));
    assert(y.len() == x.len());
    assert forall|p: int| 0 <= p < x.len() implies #[trigger] y[p] == x[p] by {
        if p % 2 == 0 {
            assert(2 * (p / 2) == p);
        } else {
            assert(2 * (p / 2) + 1 == p);
        }
    }
    assert(y =~= x);
}

/// Unpacking pairs and packing them again gives the same pairs back.
pub proof fn lemma_unpack_pack<T>(y: Seq<(T, T)>)
    ensures
        packed(unpacked(y)) == y,
{
    let z = packed(unpacked(y));
    assert(z.len() == y.len());
    assert forall|i: int| 0 <= i < y.len() implies #[trigger] z[i] == y[i] by {
        assert((2 * i) / 2 == i);
        assert((2 * i + 1) / 2 == i);
        assert((2 * i) % 2 == 0);
        assert((2 * i + 1) % 2 == 1);
    }
    assert(z =~= y);
}

/// Reads a real buffer of even length as complex samples, one per adjacent pair.
pub fn pack_complex<T: Copy>(x: &Vec<T>) -> (y: Vec<(T, T)>)
    requires
        x@.len() % 2 == 0,
    ensures
        y@ == packed(x@),
{
    let half = x.len() / 2;
    let mut y: Vec<(T, T)> = Vec::new();
    let mut i: usize = 0;
    while i < half
        invariant
            half == x@.len() / 2,
            x@.len() % 2 == 0,
            x@.len() <= usize::MAX,
            i <= half,
            y@.len() == i,
            forall|j: int| 0 <= j < i ==> #[trigger] y@[j] == (x@[2 * j], x@[2 * j + 1]),
        decreases half - i,
    {
        y.push((x[2 * i], x[2 * i + 1]));
        i = i + 1;
    }
    assert(y@ =~= packed(x@));
    y
}

/// Reads complex samples as a real buffer, real part first.
pub fn unpack_real<T: Copy>(y: &Vec<(T, T)>) -> (x: Vec<T>)
    requires
        y@.len() <= usize::MAX / 2,
    ensures
        x@ == unpacked(y@),
{
    let mut x: Vec<T> = Vec::new();
    let mut i: usize = 0;
    while i < y.len()
        invariant
            y@.len() <= usize::MAX / 2,
            i <= y@.len(),
            x@.len() == 2 * i,
            forall|p: int|
                0 <= p < 2 * i ==> #[trigger] x@[p] == if p % 2 == 0 {
                    y@[p / 2].0
                } else {
                    y@[p / 2].1
                },
        decreases y@.len() - i,
    {
        let (re, im) = y[i];
        x.push(re);
        x.push(im);
        i = i + 1;
    }
    assert(x@ =~= unpacked(y@));
    x
}

/// `after` is `before`, the `N / 2` samples of a real transform of size
/// `N = 2^log2_n`, after the recombination pass: `edge` on bin 0 and, where
/// there are two or more bins, on bin `N / 4`; `pair` on the mirrored bins
/// `k` and `N / 2 - k` for `k` in `[1, N / 4)`, with the twiddle factor of
/// position `k` in a merge of size `N`.
pub open spec fn recombined<T, E: Fn(T, Edge) -> T, P: Fn(T, T, Twiddle) -> (T, T)>(
    before: Seq<T>,
    after: Seq<T>,
    log2_n: nat,
    table_len: nat,
    edge: E,
    pair: P,
) -> bool {
    let m = before.len();
    let u = m / 2;
    &&& after.len() == m
    &&& edge.ensures((before[0], Edge::Dc), after[0])
    &&& m >= 2 ==> edge.ensures((before[u as int], Edge::Middle), after[u as int])
    &&& forall|k: int|
        1 <= k < u ==> #[trigger] pair.ensures(
            (before[k], before[m - k], twiddle_spec(k as nat, two_pow(log2_n), table_len)),
            (after[k], after[m - k]),
        )
}

/// The recombination pass between the packed complex transform and the
/// spectrum of a real signal of size `2^log2_n`, in either direction: the
/// caller's `edge` and `pair` do the arithmetic of the direction.
pub fn recombine<T: Copy, E: Fn(T, Edge) -> T, P: Fn(T, T, Twiddle) -> (T, T)>(
    x: &mut Vec<T>,
    log2_n: usize,
    table_len: usize,
    edge: &E,
    pair: &P,
)
    requires
        1 <= log2_n <= 15,
        old(x)@.len() == two_pow(log2_n as nat) / 2,
        table_fits(table_len as nat, log2_n as nat),
        forall|a: T, e: Edge| #[trigger] edge.requires((a, e)),
        forall|a: T, b: T, w: Twiddle| #[trigger] pair.requires((a, b, w)),
    ensures
        recombined(old(x)@, final(x)@, log2_n as nat, table_len as nat, *edge, *pair),
{
    let ghost orig = x@;
    let m = x.len();
    let u = m / 2;
    proof {
        lemma_two_pow_pos((log2_n - 1) as nat);
        assert(two_pow(log2_n as nat) == 2 * two_pow((log2_n - 1) as nat));
        if log2_n >= 2 {
            assert(two_pow((log2_n - 1) as nat) == 2 * two_pow((log2_n - 2) as nat));
        } else {
            assert(two_pow(0) == 1);
        }
    }
    assert(m == 1 || m % 2 == 0);
    let first = edge(x[0], Edge::Dc);
    x.set(0, first);
    let mut k: usize = 1;
    while k < u
        invariant
            1 <= log2_n <= 15,
            m == x@.len() == orig.len() == two_pow(log2_n as nat) / 2,
            m == 1 || m % 2 == 0,
            u == m / 2,
            1 <= k,
            k <= u || u == 0,
            table_fits(table_len as nat, log2_n as nat),
            forall|a: T, b: T, w: Twiddle| #[trigger] pair.requires((a, b, w)),
            edge.ensures((orig[0], Edge::Dc), x@[0]),
            forall|j: int|
                1 <= j < k ==> #[trigger] pair.ensures(
                    (orig[j], orig[m - j], twiddle_spec(j as nat, two_pow(log2_n as nat), table_len as nat)),
                    (x@[j], x@[m - j]),
                ),
            forall|p: int| k <= p <= m - k ==> #[trigger] x@[p] == orig[p],
        decreases u - k,
    {
        let w = forward_twiddle(k, log2_n, table_len);
        let (a, b) = pair(x[k], x[m - k], w);
        x.set(k, a);
        x.set(m - k, b);
        k = k + 1;
    }
    if m >= 2 {
        let mid = edge(x[u], Edge::Middle);
        x.set(u, mid);
    }
}

/// The forward transform of a real signal of size `N = 2^log2_n`: the first
/// `N / 2` bins of its spectrum, the Nyquist coefficient in the imaginary part
/// of bin 0.
pub fn rfft<
    T: Copy,
    F: Fn((T, T), (T, T), Twiddle) -> ((T, T), (T, T)),
    E: Fn((T, T), Edge) -> (T, T),
    P: Fn((T, T), (T, T), Twiddle) -> ((T, T), (T, T)),
>(x: &Vec<T>, log2_n: usize, table_len: usize, bfly: &F, edge: &E, pair: &P) -> (y: Vec<(T, T)>)
    requires
        1 <= log2_n <= 15,
        x@.len() == two_pow(log2_n as nat),
        table_fits(table_len as nat, log2_n as nat),
        forall|a: (T, T), b: (T, T), w: Twiddle| #[trigger] bfly.requires((a, b, w)),
        forall|a: (T, T), e: Edge| #[trigger] edge.requires((a, e)),
        forall|a: (T, T), b: (T, T), w: Twiddle| #[trigger] pair.requires((a, b, w)),
    ensures
        exists|z: Seq<(T, T)>|
            forward(packed(x@), z, (log2_n - 1) as nat, table_len as nat, *bfly) && recombined(
                z,
                y@,
                log2_n as nat,
                table_len as nat,
                *edge,
                *pair,
            ),
{
    proof {
        lemma_two_pow_pos((log2_n - 1) as nat);
        assert(two_pow(log2_n as nat) == 2 * two_pow((log2_n - 1) as nat));
        lemma_fits_smaller(table_len as nat, (log2_n - 1) as nat, log2_n as nat);
    }
    let mut y = pack_complex(x);
    cfft_transform(&mut y, log2_n - 1, table_len, bfly);
    let ghost z = y@;
    recombine(&mut y, log2_n, table_len, edge, pair);
    assert(forward(packed(x@), z, (log2_n - 1) as nat, table_len as nat, *bfly) && recombined(
        z,
        y@,
        log2_n as nat,
        table_len as nat,
        *edge,
        *pair,
    ));
    y
}

/// The inverse of `rfft`: from the first `N / 2` bins of a real signal's
/// spectrum, the Nyquist coefficient in the imaginary part of bin 0, back to
/// the `N = 2^log2_n` real samples.
pub fn irfft<
    T: Copy,
    E: Fn((T, T), Edge) -> (T, T),
    P: Fn((T, T), (T, T), Twiddle) -> ((T, T), (T, T)),
    F: Fn((T, T), (T, T), Twiddle) -> ((T, T), (T, T)),
    G: Fn((T, T)) -> (T, T),
>(
    x: Vec<(T, T)>,
    log2_n: usize,
    table_len: usize,
    edge: &E,
    pair: &P,
    bfly: &F,
    scale: &G,
) -> (y: Vec<T>)
    requires
        1 <= log2_n <= 15,
        x@.len() == two_pow(log2_n as nat) / 2,
        table_fits(table_len as nat, log2_n as nat),
        forall|a: (T, T), e: Edge| #[trigger] edge.requires((a, e)),
        forall|a: (T, T), b: (T, T), w: Twiddle| #[trigger] pair.requires((a, b, w)),
        forall|a: (T, T), b: (T, T), w: Twiddle| #[trigger] bfly.requires((a, b, w)),
        forall|a: (T, T)| #[trigger] scale.requires((a,)),
    ensures
        y@.len() == two_pow(log2_n as nat),
        exists|r: Seq<(T, T)>, v: Seq<(T, T)>|
            recombined(x@, r, log2_n as nat, table_len as nat, *edge, *pair) && inverse(
                r,
                v,
                (log2_n - 1) as nat,
                table_len as nat,
                *bfly,
                *scale,
            ) && y@ == unpacked(v),
{
    proof {
        lemma_two_pow_pos((log2_n - 1) as nat);
        assert(two_pow(log2_n as nat) == 2 * two_pow((log2_n - 1) as nat));
        lemma_fits_smaller(table_len as nat, (log2_n - 1) as nat, log2_n as nat);
    }
    let ghost orig = x@;
    let mut x = x;
    recombine(&mut x, log2_n, table_len, edge, pair);
    let ghost r = x@;
    ifft_transform(&mut x, log2_n - 1, table_len, bfly, scale);
    let ghost v = x@;
    proof {
        lemma_two_pow_mono((log2_n - 1) as nat, 15);
        lemma_two_pow_15();
    }
    let y = unpack_real(&x);
    assert(recombined(orig, r, log2_n as nat, table_len as nat, *edge, *pair) && inverse(
        r,
        v,
        (log2_n - 1) as nat,
        table_len as nat,
        *bfly,
        *scale,
    ) && y@ == unpacked(v));
    y
}

/// A real transform of size 2 is the packing step of bin 0 alone: the
/// complex transform of one sample leaves it as it is.
pub proof fn lemma_two_point_real<
    T,
    F: Fn((T, T), (T, T), Twiddle) -> ((T, T), (T, T)),
    E: Fn((T, T), Edge) -> (T, T),
    P: Fn((T, T), (T, T), Twiddle) -> ((T, T), (T, T)),
>(x: Seq<T>, y: Seq<(T, T)>, z: Seq<(T, T)>, table_len: nat, bfly: F, edge: E, pair: P)
    requires
        x.len() == 2,
        forward(packed(x), z, 0, table_len, bfly),
        recombined(z, y, 1, table_len, edge, pair),
    ensures
        y.len() == 1,
        edge.ensures(((x[0], x[1]), Edge::Dc), y[0]),
{
    let (mid, trace) = choose|mid: Seq<(T, T)>, trace: Seq<Seq<(T, T)>>|
        crate::cfft::bit_reversed(packed(x), mid, 0) && crate::cfft::schedule_trace(
            trace,
            mid,
            z,
            0,
            table_len,
            bfly,
        );
    assert(crate::bitrev::rev(0, 0) == 0);
    assert(crate::cfft::butterfly_count(0) == 0);
    assert(z == trace[0]);
    assert(z[0] == (x[0], x[1]));
}

} // verus!
