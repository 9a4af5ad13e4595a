use microfft::bitrev::{bit_reverse_reorder, pow2_usize, reverse_index};
use microfft::cfft;
use microfft::ifft;
use microfft::real_input::{irfft, pack_complex, recombine, rfft, unpack_real, Edge};
use microfft::twiddle::{forward_twiddle, TableRef, Twiddle};

type C = (f32, f32);

const QUARTER: usize = 8192;
const TABLE_LEN: usize = QUARTER - 1;

fn sine_table() -> Vec<f32> {
    (0..TABLE_LEN)
        .map(|j| -((((j + 1) as f64) * std::f64::consts::PI / (2.0 * QUARTER as f64)).sin() as f32))
        .collect()
}

fn entry(table: &[f32], r: TableRef) -> f32 {
    if r.negate {
        -table[r.index]
    } else {
        table[r.index]
    }
}

fn twiddle_value(table: &[f32], w: Twiddle) -> C {
    match w {
        Twiddle::One => (1.0, 0.0),
        Twiddle::MinusI => (0.0, -1.0),
        Twiddle::Table { re, im } => (entry(table, re), entry(table, im)),
    }
}

fn cmul(a: C, b: C) -> C {
    (a.0 * b.0 - a.1 * b.1, a.0 * b.1 + a.1 * b.0)
}

fn butterfly(table: &[f32], a: C, b: C, w: Twiddle) -> (C, C) {
    let y = match w {
        Twiddle::One => b,
        _ => cmul(b, twiddle_value(table, w)),
    };
    ((a.0 + y.0, a.1 + y.1), (a.0 - y.0, a.1 - y.1))
}

fn rfft_edge(x: C, e: Edge) -> C {
    match e {
        Edge::Dc => (x.0 + x.1, x.0 - x.1),
        Edge::Middle => (x.0, -x.1),
    }
}

fn rfft_pair(table: &[f32], a: C, b: C, w: Twiddle) -> (C, C) {
    let (tre, tim) = twiddle_value(table, w);
    let sum = ((a.0 + b.0) / 2.0, (a.1 + b.1) / 2.0);
    let diff = ((a.0 - b.0) / 2.0, (a.1 - b.1) / 2.0);
    (
        (sum.0 + tre * sum.1 + tim * diff.0, diff.1 + tim * sum.1 - tre * diff.0),
        (sum.0 - tre * sum.1 - tim * diff.0, -diff.1 + tim * sum.1 - tre * diff.0),
    )
}

fn irfft_edge(x: C, e: Edge) -> C {
    match e {
        Edge::Dc => ((x.0 + x.1) / 2.0, (x.0 - x.1) / 2.0),
        Edge::Middle => (x.0, -x.1),
    }
}

fn irfft_pair(table: &[f32], a: C, b: C, w: Twiddle) -> (C, C) {
    let (tre, tim) = twiddle_value(table, w);
    let sum_re = (a.0 + b.0) / 2.0;
    let diff_im = (a.1 - b.1) / 2.0;
    let p = (a.0 - b.0) / 2.0;
    let q = (a.1 + b.1) / 2.0;
    let norm = tre * tre + tim * tim;
    let sum_im = (p * tre + q * tim) / norm;
    let diff_re = (p * tim - q * tre) / norm;
    ((sum_re + diff_re, sum_im + diff_im), (sum_re - diff_re, sum_im - diff_im))
}

fn run_cfft(x: &mut Vec<C>, log2_n: usize, table: &[f32]) {
    cfft::transform(x, log2_n, TABLE_LEN, &|a: C, b: C, w: Twiddle| butterfly(table, a, b, w));
}

fn run_ifft(x: &mut Vec<C>, log2_n: usize, table: &[f32]) {
    let n = (1usize << log2_n) as f32;
    ifft::transform(
        x,
        log2_n,
        TABLE_LEN,
        &|a: C, b: C, w: Twiddle| butterfly(table, a, b, w),
        &|c: C| (c.0 / n, c.1 / n),
    );
}

fn run_rfft(x: &Vec<f32>, log2_n: usize, table: &[f32]) -> Vec<C> {
    rfft(
        x,
        log2_n,
        TABLE_LEN,
        &|a: C, b: C, w: Twiddle| butterfly(table, a, b, w),
        &rfft_edge,
        &|a: C, b: C, w: Twiddle| rfft_pair(table, a, b, w),
    )
}

fn run_irfft(x: Vec<C>, log2_n: usize, table: &[f32]) -> Vec<f32> {
    let n = (1usize << (log2_n - 1)) as f32;
    irfft(
        x,
        log2_n,
        TABLE_LEN,
        &irfft_edge,
        &|a: C, b: C, w: Twiddle| irfft_pair(table, a, b, w),
        &|a: C, b: C, w: Twiddle| butterfly(table, a, b, w),
        &|c: C| (c.0 / n, c.1 / n),
    )
}

/// Deterministic pseudo-random samples in [-1, 1).
fn samples(n: usize, seed: u64) -> Vec<f32> {
    let mut state = seed.wrapping_mul(6364136223846793005).wrapping_add(1442695040888963407);
    (0..n)
        .map(|_| {
            state = state.wrapping_mul(6364136223846793005).wrapping_add(1442695040888963407);
            ((state >> 40) as f32 / (1u64 << 24) as f32) * 2.0 - 1.0
        })
        .collect()
}

fn complex_samples(n: usize, seed: u64) -> Vec<C> {
    let s = samples(2 * n, seed);
    (0..n).map(|i| (s[2 * i], s[2 * i + 1])).collect()
}

fn naive_dft(x: &[C]) -> Vec<(f64, f64)> {
    let n = x.len();
    (0..n)
        .map(|k| {
            let mut acc = (0.0f64, 0.0f64);
            for (j, v) in x.iter().enumerate() {
                let angle = -2.0 * std::f64::consts::PI * ((j * k) % n) as f64 / n as f64;
                let (s, c) = angle.sin_cos();
                acc.0 += v.0 as f64 * c - v.1 as f64 * s;
                acc.1 += v.0 as f64 * s + v.1 as f64 * c;
            }
            acc
        })
        .collect()
}

#[test]
fn two_point_transform_is_sum_and_difference() {
    let table = sine_table();
    let (a, b) = ((1.5f32, -2.25f32), (0.75f32, 4.0f32));
    let mut x = vec![a, b];
    run_cfft(&mut x, 1, &table);
    assert_eq!(x, vec![(a.0 + b.0, a.1 + b.1), (a.0 - b.0, a.1 - b.1)]);
}

#[test]
fn size_one_transform_is_identity() {
    let table = sine_table();
    let mut x = vec![(3.0f32, -1.0f32)];
    run_cfft(&mut x, 0, &table);
    assert_eq!(x, vec![(3.0, -1.0)]);
    run_ifft(&mut x, 0, &table);
    assert_eq!(x, vec![(3.0, -1.0)]);
}

#[test]
fn forward_matches_naive_dft() {
    let table = sine_table();
    for log2_n in 1..=10 {
        let n = 1usize << log2_n;
        let input = complex_samples(n, log2_n as u64);
        let want = naive_dft(&input);
        let mut got = input.clone();
        run_cfft(&mut got, log2_n, &table);
        let scale = want.iter().map(|w| (w.0 * w.0 + w.1 * w.1).sqrt()).fold(1.0, f64::max);
        for k in 0..n {
            let err = ((got[k].0 as f64 - want[k].0).powi(2) + (got[k].1 as f64 - want[k].1).powi(2)).sqrt();
            assert!(err <= 5e-3 * scale, "n = {}, bin {}: error {}", n, k, err);
        }
    }
}

#[test]
fn inverse_undoes_forward() {
    let table = sine_table();
    for log2_n in 0..=15 {
        let n = 1usize << log2_n;
        let input = complex_samples(n, 100 + log2_n as u64);
        let mut x = input.clone();
        run_cfft(&mut x, log2_n, &table);
        run_ifft(&mut x, log2_n, &table);
        for k in 0..n {
            assert!((x[k].0 - input[k].0).abs() < 1e-2 && (x[k].1 - input[k].1).abs() < 1e-2);
        }
    }
}

#[test]
fn inverse_real_undoes_forward_real() {
    let table = sine_table();
    for log2_n in 1..=15 {
        let n = 1usize << log2_n;
        let input = samples(n, 200 + log2_n as u64);
        let spectrum = run_rfft(&input, log2_n, &table);
        assert_eq!(spectrum.len(), n / 2);
        let back = run_irfft(spectrum, log2_n, &table);
        assert_eq!(back.len(), n);
        for k in 0..n {
            assert!((back[k] - input[k]).abs() < 1e-2, "n = {}, sample {}", n, k);
        }
    }
}

#[test]
fn real_transform_matches_complex_transform() {
    let table = sine_table();
    for log2_n in 1..=10 {
        let n = 1usize << log2_n;
        let input = samples(n, 300 + log2_n as u64);
        let spectrum = run_rfft(&input, log2_n, &table);
        let mut reference: Vec<C> = input.iter().map(|&v| (v, 0.0)).collect();
        run_cfft(&mut reference, log2_n, &table);
        for k in 0..n / 2 {
            let want_im = if k == 0 { reference[n / 2].0 } else { reference[k].1 };
            assert!((spectrum[k].0 - reference[k].0).abs() < 1e-3, "n = {}, bin {}", n, k);
            assert!((spectrum[k].1 - want_im).abs() < 1e-3, "n = {}, bin {}", n, k);
        }
    }
}

#[test]
fn packing_then_unpacking_keeps_values() {
    let x: Vec<f32> = vec![1.0, -2.0, 3.5, 0.25, -7.0, 8.0];
    let packed = pack_complex(&x);
    assert_eq!(packed, vec![(1.0, -2.0), (3.5, 0.25), (-7.0, 8.0)]);
    assert_eq!(unpack_real(&packed), x);
    let empty: Vec<f32> = Vec::new();
    assert_eq!(unpack_real(&pack_complex(&empty)), empty);
}

#[test]
fn sine_wave_spectrum_peaks_at_its_frequency() {
    let table = sine_table();
    let input: Vec<f32> = (0..16)
        .map(|i| (2.0 * std::f32::consts::PI * 3.0 * (1.0 / 16.0) * i as f32).sin())
        .collect();
    let mut spectrum = run_rfft(&input, 4, &table);
    let saved = spectrum.clone();
    spectrum[0].1 = 0.0;
    let amplitudes: Vec<u32> = spectrum.iter().map(|c| (c.0 * c.0 + c.1 * c.1).sqrt() as u32).collect();
    assert_eq!(amplitudes, vec![0, 0, 0, 8, 0, 0, 0, 0]);
    let back = run_irfft(saved, 4, &table);
    for (a, b) in input.iter().zip(back.iter()) {
        assert!((a - b).abs() < 0.001);
    }
}

#[test]
fn reversed_indices() {
    assert_eq!(reverse_index(0, 3), 0);
    assert_eq!(reverse_index(1, 3), 4);
    assert_eq!(reverse_index(6, 3), 3);
    assert_eq!(reverse_index(1, 15), 16384);
    assert_eq!(reverse_index(5, 0), 0);
    assert_eq!(pow2_usize(0), 1);
    assert_eq!(pow2_usize(15), 32768);
}

#[test]
fn bit_reverse_reorder_of_eight() {
    let mut x: Vec<u32> = (0..8).collect();
    bit_reverse_reorder(&mut x, 3);
    assert_eq!(x, vec![0, 4, 2, 6, 1, 5, 3, 7]);
    bit_reverse_reorder(&mut x, 3);
    assert_eq!(x, (0..8).collect::<Vec<u32>>());
}

#[test]
fn time_reversal_reorder() {
    let mut x: Vec<u32> = (0..8).collect();
    ifft::reorder(&mut x);
    assert_eq!(x, vec![0, 7, 6, 5, 4, 3, 2, 1]);
    let mut one = vec![9u32];
    ifft::reorder(&mut one);
    assert_eq!(one, vec![9]);
}

#[test]
fn normalize_applies_to_every_sample() {
    let mut x: Vec<i32> = vec![2, 4, 6];
    ifft::normalize(&mut x, &|v: i32| v / 2);
    assert_eq!(x, vec![1, 2, 3]);
}

#[test]
fn twiddles_by_region() {
    // a merge of size 16 with a table of 3 entries: stride 1, u = 4
    assert_eq!(forward_twiddle(0, 4, 3), Twiddle::One);
    assert_eq!(forward_twiddle(4, 4, 3), Twiddle::MinusI);
    assert_eq!(
        forward_twiddle(1, 4, 3),
        Twiddle::Table {
            re: TableRef { index: 2, negate: true },
            im: TableRef { index: 0, negate: false },
        }
    );
    assert_eq!(
        forward_twiddle(3, 4, 3),
        Twiddle::Table {
            re: TableRef { index: 0, negate: true },
            im: TableRef { index: 2, negate: false },
        }
    );
    assert_eq!(
        forward_twiddle(5, 4, 3),
        Twiddle::Table {
            re: TableRef { index: 0, negate: false },
            im: TableRef { index: 2, negate: false },
        }
    );
    assert_eq!(
        forward_twiddle(7, 4, 3),
        Twiddle::Table {
            re: TableRef { index: 2, negate: false },
            im: TableRef { index: 0, negate: false },
        }
    );
    // the same merge with a finer table: stride 2
    assert_eq!(
        forward_twiddle(1, 4, 7),
        Twiddle::Table {
            re: TableRef { index: 5, negate: true },
            im: TableRef { index: 1, negate: false },
        }
    );
    assert_eq!(forward_twiddle(1, 2, 3), Twiddle::MinusI);
}

#[test]
fn recombine_touches_mirrored_pairs() {
    // a real transform of size 16: 8 bins, pairs (1, 7), (2, 6), (3, 5), middle 4
    let mut x: Vec<(i32, i32)> = (0..8).map(|i| (i, 0)).collect();
    recombine(
        &mut x,
        4,
        3,
        &|c: (i32, i32), e: Edge| match e {
            Edge::Dc => (c.0, 100),
            Edge::Middle => (c.0, 200),
        },
        &|a: (i32, i32), b: (i32, i32), _w: Twiddle| ((b.0, 1), (a.0, 1)),
    );
    assert_eq!(x, vec![(0, 100), (7, 1), (6, 1), (5, 1), (4, 200), (3, 1), (2, 1), (1, 1)]);
}

#[test]
fn two_point_real_transform_packs_dc_and_nyquist() {
    let table = sine_table();
    let spectrum = run_rfft(&vec![5.0f32, 2.0f32], 1, &table);
    assert_eq!(spectrum, vec![(7.0, 3.0)]);
    let back = run_irfft(spectrum, 1, &table);
    assert_eq!(back, vec![5.0, 2.0]);
}

#[test]
fn four_point_transform_of_impulse_is_flat() {
    let table = sine_table();
    let mut x: Vec<C> = vec![(1.0, 0.0), (0.0, 0.0), (0.0, 0.0), (0.0, 0.0)];
    run_cfft(&mut x, 2, &table);
    assert_eq!(x, vec![(1.0, 0.0); 4]);
    let mut y: Vec<C> = vec![(0.0, 0.0), (1.0, 0.0), (0.0, 0.0), (0.0, 0.0)];
    run_cfft(&mut y, 2, &table);
    // e^(-2 pi i k / 4) for k = 0..4
    let want = [(1.0f32, 0.0f32), (0.0, -1.0), (-1.0, 0.0), (0.0, 1.0)];
    for k in 0..4 {
        assert!((y[k].0 - want[k].0).abs() < 1e-6 && (y[k].1 - want[k].1).abs() < 1e-6);
    }
}
