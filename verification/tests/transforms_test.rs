use fft::transforms::{dft, fft, TransformError};
use fft::twiddle::Twiddle;
use std::f64::consts::PI;
use std::ops::Range;

#[derive(Clone, Copy, Debug)]
struct Complex(f64, f64);

impl Complex {
    fn len(&self) -> f64 {
        (self.0.powi(2) + self.1.powi(2)).sqrt()
    }

    fn plus(self, rhs: Complex) -> Complex {
        Complex(self.0 + rhs.0, self.1 + rhs.1)
    }

    fn minus(self, rhs: Complex) -> Complex {
        Complex(self.0 - rhs.0, self.1 - rhs.1)
    }

    fn times(self, rhs: Complex) -> Complex {
        Complex(self.0 * rhs.0 - self.1 * rhs.1, self.0 * rhs.1 + self.1 * rhs.0)
    }
}

fn sample(frequencies: &[f64], sample_size: usize) -> Vec<f64> {
    let mut samples = Vec::with_capacity(sample_size);
    let sample_rate = 1.0 / sample_size as f64;
    for i in 0..sample_size {
        let mut sample = 0.0;
        for frequency in frequencies {
            let w = 2.0 * PI * frequency * (i as f64) * sample_rate;
            sample += w.sin();
        }
        samples.push(sample)
    }
    samples
}

fn root(w: Twiddle) -> Complex {
    let angle = 2.0 * PI * w.turn as f64 / w.over as f64;
    Complex(angle.cos(), -angle.sin())
}

fn butterfly(t: Complex, u: Complex, w: Twiddle) -> (Complex, Complex) {
    let u = root(w).times(u);
    (t.plus(u), t.minus(u))
}

fn accumulate(sum: Complex, x: Complex, w: Twiddle) -> Complex {
    sum.plus(x.times(root(w)))
}

fn lift(samples: &[f64]) -> Vec<Complex> {
    samples.iter().map(|&x| Complex(x, 0.0)).collect()
}

fn run_fft(samples: &[f64]) -> Vec<Complex> {
    fft(&lift(samples), butterfly).unwrap()
}

fn run_dft(samples: &[f64], frequency_range: Range<usize>) -> Vec<Complex> {
    dft(&lift(samples), frequency_range, Complex(0.0, 0.0), accumulate).unwrap()
}

fn noise(count: usize) -> Vec<f64> {
    let mut state: u64 = 0x2545_f491_4f6c_dd1d;
    let mut samples = Vec::with_capacity(count);
    for _ in 0..count {
        state = state.wrapping_mul(6364136223846793005).wrapping_add(1442695040888963407);
        samples.push(((state >> 11) as f64 / (1u64 << 53) as f64) * 2.0 - 1.0);
    }
    samples
}

fn close(a: f64, b: f64) -> bool {
    (a - b).abs() <= 1e-9 * (1.0 + a.abs().max(b.abs()))
}

#[test]
fn dft_test() {
    let samples = sample(&[2.0, 4.0], 2_usize.pow(5));
    let f = run_dft(&samples, 0..5).iter().map(Complex::len).collect::<Vec<f64>>();
    assert!(f[0] < 1.0);
    assert!(f[1] < 1.0);
    assert!(f[2] > 1.0);
    assert!(f[3] < 1.0);
    assert!(f[4] > 1.0);
}

#[test]
fn fft_test() {
    let samples = sample(&[2.0, 4.0], 2_usize.pow(5));
    let f = run_fft(&samples).iter().map(Complex::len).collect::<Vec<f64>>();

    assert!(f[0] < 1.0);
    assert!(f[1] < 1.0);
    assert!(f[2] > 1.0);
    assert!(f[3] < 1.0);
    assert!(f[4] > 1.0);
}

#[test]
fn fast_and_direct_magnitudes_agree() {
    for power in 0..8u32 {
        let n: usize = 1usize << power;
        let samples = noise(n);
        let fast = run_fft(&samples);
        assert_eq!(fast.len(), n);
        for k in 0..n {
            let direct = run_dft(&samples, k..k + 1);
            assert_eq!(direct.len(), 1);
            assert!(
                close(fast[k].len(), direct[0].len()),
                "n = {}, bin {}: {} and {}",
                n,
                k,
                fast[k].len(),
                direct[0].len()
            );
        }
    }
}

#[test]
fn fast_and_direct_bins_agree() {
    let samples = noise(64);
    let fast = run_fft(&samples);
    let direct = run_dft(&samples, 0..64);
    for k in 0..64 {
        assert!(close(fast[k].0, direct[k].0));
        assert!(close(fast[k].1, direct[k].1));
    }
}

#[test]
fn sine_mixture_peaks_at_its_frequencies() {
    let length: usize = 64;
    let samples = sample(&[5.0, 12.0], length);
    let fast = run_fft(&samples);
    let direct = run_dft(&samples, 0..length);
    for k in 0..length {
        let peak = k == 5 || k == 12 || k == length - 5 || k == length - 12;
        for magnitude in [fast[k].len(), direct[k].len()] {
            if peak {
                assert!(close(magnitude, length as f64 / 2.0), "bin {}: {}", k, magnitude);
            } else {
                assert!(magnitude < 1e-9, "bin {}: {}", k, magnitude);
            }
        }
    }
}

#[test]
fn empty_signal_has_no_bins() {
    assert!(run_fft(&[]).is_empty());
    assert!(run_dft(&[], 0..0).is_empty());
}

#[test]
fn single_sample_is_its_own_transform() {
    let fast = run_fft(&[3.25]);
    assert_eq!(fast.len(), 1);
    assert_eq!(fast[0].0, 3.25);
    assert_eq!(fast[0].1, 0.0);
    let direct = run_dft(&[3.25], 0..1);
    assert_eq!(direct.len(), 1);
    assert_eq!(direct[0].0, 3.25);
    assert_eq!(direct[0].1, 0.0);
}

#[test]
fn two_samples_give_sum_and_difference() {
    let fast = run_fft(&[1.5, -0.25]);
    assert_eq!(fast.len(), 2);
    assert!(close(fast[0].0, 1.25) && close(fast[0].1, 0.0));
    assert!(close(fast[1].0, 1.75) && close(fast[1].1, 0.0));
}

#[test]
fn four_samples_give_the_known_bins() {
    // x = [1, 2, 3, 4]: X = [10, -2 + 2i, -2, -2 - 2i]
    let fast = run_fft(&[1.0, 2.0, 3.0, 4.0]);
    let expected = [(10.0, 0.0), (-2.0, 2.0), (-2.0, 0.0), (-2.0, -2.0)];
    for k in 0..4 {
        assert!(close(fast[k].0, expected[k].0), "bin {}: {:?}", k, fast[k]);
        assert!(close(fast[k].1, expected[k].1), "bin {}: {:?}", k, fast[k]);
    }
    let direct = run_dft(&[1.0, 2.0, 3.0, 4.0], 1..3);
    assert_eq!(direct.len(), 2);
    assert!(close(direct[0].0, -2.0) && close(direct[0].1, 2.0));
    assert!(close(direct[1].0, -2.0) && close(direct[1].1, 0.0));
}

#[test]
fn zero_signal_transforms_to_zero() {
    let samples = vec![0.0; 32];
    for bin in run_fft(&samples) {
        assert_eq!(bin.len(), 0.0);
    }
    for bin in run_dft(&samples, 0..32) {
        assert_eq!(bin.len(), 0.0);
    }
}

#[test]
fn transform_is_linear() {
    let a = noise(16);
    let b = sample(&[3.0], 16);
    let mixed: Vec<f64> = a.iter().zip(b.iter()).map(|(x, y)| 2.0 * x - 0.5 * y).collect();
    let fa = run_fft(&a);
    let fb = run_fft(&b);
    let fm = run_fft(&mixed);
    for k in 0..16 {
        assert!(close(fm[k].0, 2.0 * fa[k].0 - 0.5 * fb[k].0));
        assert!(close(fm[k].1, 2.0 * fa[k].1 - 0.5 * fb[k].1));
    }
}

#[test]
fn fast_transform_rejects_other_lengths() {
    for n in [3usize, 5, 6, 7, 9, 10, 12, 24, 100, 1023, 1025] {
        let samples = vec![Complex(1.0, 0.0); n];
        let result = fft(&samples, butterfly);
        assert!(matches!(result, Err(TransformError::Domain)), "length {}", n);
    }
}

#[test]
fn fast_transform_keeps_the_length() {
    for power in 0..11u32 {
        let n: usize = 1usize << power;
        assert_eq!(run_fft(&vec![1.0; n]).len(), n);
    }
    assert_eq!(run_fft(&[]).len(), 0);
}

#[test]
fn direct_transform_rejects_bad_ranges() {
    let samples = lift(&[1.0, 2.0, 3.0, 4.0, 5.0, 6.0, 7.0, 8.0]);
    let zero = Complex(0.0, 0.0);
    assert!(matches!(dft(&samples, 0..9, zero, accumulate), Err(TransformError::Range)));
    assert!(matches!(dft(&samples, 9..9, zero, accumulate), Err(TransformError::Range)));
    assert!(matches!(dft(&samples, 5..4, zero, accumulate), Err(TransformError::Range)));
    assert!(matches!(dft(&samples, usize::MAX..0, zero, accumulate), Err(TransformError::Range)));
    assert!(matches!(dft(&[], 0..1, zero, accumulate), Err(TransformError::Range)));
}

#[test]
fn direct_transform_has_one_output_for_each_bin() {
    let samples = noise(8);
    assert_eq!(run_dft(&samples, 0..8).len(), 8);
    assert_eq!(run_dft(&samples, 3..6).len(), 3);
    assert_eq!(run_dft(&samples, 8..8).len(), 0);
    assert_eq!(run_dft(&samples, 0..0).len(), 0);
    let all = run_dft(&samples, 0..8);
    let some = run_dft(&samples, 3..6);
    for i in 0..3 {
        assert_eq!(some[i].0, all[3 + i].0);
        assert_eq!(some[i].1, all[3 + i].1);
    }
}

#[test]
fn direct_transform_works_for_any_length() {
    // x = [1, 0, 0]: every bin is 1
    for bin in run_dft(&[1.0, 0.0, 0.0], 0..3) {
        assert!(close(bin.0, 1.0) && close(bin.1, 0.0));
    }
    // x = [1, 1, 1]: bin 0 is 3, the others vanish
    let flat = run_dft(&[1.0, 1.0, 1.0], 0..3);
    assert!(close(flat[0].0, 3.0));
    assert!(flat[1].len() < 1e-9 && flat[2].len() < 1e-9);
}

#[test]
fn error_messages_name_the_requirement() {
    assert_eq!(
        TransformError::Domain.message(),
        "the fast transform needs a length that is zero or a power of two"
    );
    assert_eq!(
        TransformError::Range.message(),
        "the direct transform needs bins start..end with start <= end <= len"
    );
}
