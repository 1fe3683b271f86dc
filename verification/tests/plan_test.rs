use fft::power_of_two::is_power_of_two;
use fft::transforms::{direct_twiddle, fft};
use fft::twiddle::Twiddle;
use std::cell::RefCell;

/// What the fast transform does to a buffer of `n` values: which sample each
/// position loads, and the butterflies as (lo, hi, root), in their order.
///
/// The values are tags.  Sample `j` is tagged `j`, and call `i` of the
/// kernel returns the fresh tags `n + 2 * i` and `n + 2 * i + 1`.  A value
/// lies where the value that replaces it lies, so the places follow from the
/// final buffer by walking the calls backwards.
fn observe(n: usize) -> (Vec<usize>, Vec<(usize, usize, Twiddle)>) {
    let calls: RefCell<Vec<(usize, usize, Twiddle)>> = RefCell::new(Vec::new());
    let samples: Vec<usize> = (0..n).collect();
    let out = fft(&samples, |t: usize, u: usize, w: Twiddle| {
        let mut calls = calls.borrow_mut();
        let fresh: usize = n + 2 * calls.len();
        calls.push((t, u, w));
        (fresh, fresh + 1)
    })
    .unwrap();
    let calls = calls.into_inner();
    assert_eq!(out.len(), n);
    let mut place: Vec<usize> = vec![usize::MAX; n + 2 * calls.len()];
    for (p, &tag) in out.iter().enumerate() {
        place[tag] = p;
    }
    let mut steps: Vec<(usize, usize, Twiddle)> = Vec::new();
    for (i, &(t, u, w)) in calls.iter().enumerate().rev() {
        let lo: usize = place[n + 2 * i];
        let hi: usize = place[n + 2 * i + 1];
        place[t] = lo;
        place[u] = hi;
        steps.push((lo, hi, w));
    }
    steps.reverse();
    let mut order: Vec<usize> = vec![usize::MAX; n];
    for j in 0..n {
        order[place[j]] = j;
    }
    (order, steps)
}

fn butterfly(lo: usize, hi: usize, turn: usize, over: usize) -> (usize, usize, Twiddle) {
    (lo, hi, Twiddle { turn, over })
}

/// Runs an observed plan on exact sums: a value is a list of terms
/// (sample, turn in n-ths of the circle).
fn run_exactly(order: &[usize], steps: &[(usize, usize, Twiddle)]) -> Vec<Vec<(usize, usize)>> {
    let n: usize = order.len();
    let mut buffer: Vec<Vec<(usize, usize)>> = order.iter().map(|&j| vec![(j, 0usize)]).collect();
    for &(lo, hi, w) in steps {
        let by: usize = w.turn * (n / w.over);
        let t = buffer[lo].clone();
        let u: Vec<(usize, usize)> = buffer[hi].iter().map(|&(j, e)| (j, (e + by) % n)).collect();
        let mut sum = t.clone();
        sum.extend(u.iter().copied());
        let mut difference = t;
        difference.extend(u.iter().map(|&(j, e)| (j, (e + n / 2) % n)));
        buffer[lo] = sum;
        buffer[hi] = difference;
    }
    buffer
}

#[test]
fn powers_of_two_are_recognised() {
    for power in 0..usize::BITS {
        assert!(is_power_of_two(1usize << power));
    }
    for n in [0usize, 3, 5, 6, 7, 9, 12, 100, 1000, usize::MAX, usize::MAX - 1] {
        assert!(!is_power_of_two(n), "{}", n);
    }
    assert!(!is_power_of_two((1usize << 20) + 1));
    assert!(!is_power_of_two((1usize << 20) - 1));
    assert!(!is_power_of_two(3usize << 20));
}

#[test]
fn no_samples_take_no_steps() {
    assert_eq!(observe(0), (vec![], vec![]));
}

#[test]
fn one_sample_is_only_loaded() {
    assert_eq!(observe(1), (vec![0], vec![]));
}

#[test]
fn two_samples_take_one_butterfly() {
    assert_eq!(observe(2), (vec![0, 1], vec![butterfly(0, 1, 0, 2)]));
}

#[test]
fn four_samples_take_four_butterflies() {
    assert_eq!(
        observe(4),
        (
            vec![0, 2, 1, 3],
            vec![
                butterfly(0, 1, 0, 2),
                butterfly(2, 3, 0, 2),
                butterfly(0, 2, 0, 4),
                butterfly(1, 3, 1, 4),
            ]
        )
    );
}

#[test]
fn eight_samples_take_twelve_butterflies() {
    let (order, steps) = observe(8);
    assert_eq!(order, vec![0, 4, 2, 6, 1, 5, 3, 7]);
    assert_eq!(
        steps,
        vec![
            butterfly(0, 1, 0, 2),
            butterfly(2, 3, 0, 2),
            butterfly(0, 2, 0, 4),
            butterfly(1, 3, 1, 4),
            butterfly(4, 5, 0, 2),
            butterfly(6, 7, 0, 2),
            butterfly(4, 6, 0, 4),
            butterfly(5, 7, 1, 4),
            butterfly(0, 4, 0, 8),
            butterfly(1, 5, 1, 8),
            butterfly(2, 6, 2, 8),
            butterfly(3, 7, 3, 8),
        ]
    );
}

#[test]
fn load_order_reverses_the_bits() {
    let (order, _) = observe(64);
    for p in 0..64usize {
        let reversed: usize = (p.reverse_bits() >> (usize::BITS - 6)) as usize;
        assert_eq!(order[p], reversed);
        assert_eq!(order[order[p]], p);
    }
}

#[test]
fn every_level_takes_half_n_butterflies() {
    for power in 0..11u32 {
        let n: usize = 1usize << power;
        let (_, steps) = observe(n);
        assert_eq!(2 * steps.len(), n * power as usize);
    }
}

#[test]
fn butterflies_fit_the_buffer() {
    let n: usize = 256;
    let (order, steps) = observe(n);
    for &j in &order {
        assert!(j < n);
    }
    for &(lo, hi, w) in &steps {
        assert!(lo < hi && hi < n);
        assert!(w.turn < w.over);
        assert_eq!(n % w.over, 0);
    }
}

#[test]
fn every_bin_adds_the_terms_of_the_direct_sum() {
    for power in 0..7u32 {
        let n: usize = 1usize << power;
        let (order, steps) = observe(n);
        let outputs = run_exactly(&order, &steps);
        assert_eq!(outputs.len(), n);
        for k in 0..n {
            let mut fast = outputs[k].clone();
            fast.sort();
            let direct: Vec<(usize, usize)> = (0..n).map(|j| (j, (k * j) % n)).collect();
            assert_eq!(fast, direct, "n = {}, bin {}", n, k);
        }
    }
}

#[test]
fn direct_twiddle_reduces_the_product() {
    assert_eq!(direct_twiddle(8, 3, 5), Twiddle { turn: 7, over: 8 });
    assert_eq!(direct_twiddle(8, 0, 5), Twiddle { turn: 0, over: 8 });
    assert_eq!(direct_twiddle(8, 4, 0), Twiddle { turn: 0, over: 8 });
    assert_eq!(direct_twiddle(32, 4, 31), Twiddle { turn: 28, over: 32 });
    assert_eq!(direct_twiddle(5, 7, 4), Twiddle { turn: 3, over: 5 });
    assert_eq!(direct_twiddle(1, 9, 0), Twiddle { turn: 0, over: 1 });
}

#[test]
fn direct_twiddle_does_not_overflow() {
    // (max - 1) * (max - 1) = 1 modulo max
    assert_eq!(
        direct_twiddle(usize::MAX, usize::MAX - 1, usize::MAX - 1),
        Twiddle { turn: 1, over: usize::MAX }
    );
    assert_eq!(
        direct_twiddle(usize::MAX, usize::MAX, usize::MAX - 1),
        Twiddle { turn: 0, over: usize::MAX }
    );
}

#[test]
fn direct_twiddle_matches_the_fast_terms() {
    let n: usize = 16;
    let (order, steps) = observe(n);
    let outputs = run_exactly(&order, &steps);
    for k in 0..n {
        for &(j, turn) in &outputs[k] {
            assert_eq!(direct_twiddle(n, k, j), Twiddle { turn, over: n });
        }
    }
}
