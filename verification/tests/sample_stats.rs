//! Statistical behaviour of the weighted sampler, driven by unit
//! exponential draws generated here from a fixed-seed generator: with
//! identical weights the first pick is uniform, and with weights a:b the
//! single-sample inclusion ratio approaches a:b.

use ollama_balancer::sample::{efraimidis_spirakis_sample, Weight};

struct Lcg(u64);

impl Lcg {
    fn next_u64(&mut self) -> u64 {
        // Constants from the MMIX linear congruential generator.
        self.0 = self.0.wrapping_mul(6364136223846793005).wrapping_add(1442695040888963407);
        self.0
    }

    fn uniform(&mut self) -> f64 {
        // A uniform draw in (0, 1).
        ((self.next_u64() >> 11) as f64 + 1.0) / (1u64 << 53) as f64
    }

    /// A unit-exponential variate in fixed point (scaled by 2^32).
    fn exp_draw(&mut self) -> u64 {
        let e = -self.uniform().ln();
        (e * 4294967296.0) as u64
    }
}

#[test]
fn equal_weights_give_a_uniform_first_pick() {
    let mut rng = Lcg(0x5eed);
    let n = 4;
    let trials = 20000;
    let mut counts = [0usize; 4];
    let ws = vec![Weight { num: 1, den: 1 }; n];
    for _ in 0..trials {
        let draws: Vec<u64> = (0..n).map(|_| rng.exp_draw()).collect();
        let picked = efraimidis_spirakis_sample(&ws, 1, &draws);
        counts[picked[0]] += 1;
    }
    for &c in &counts {
        let share = c as f64 / trials as f64;
        assert!((share - 0.25).abs() < 0.02, "share {} too far from uniform", share);
    }
}

#[test]
fn two_to_one_weights_give_a_two_to_one_inclusion() {
    let mut rng = Lcg(0xfeed);
    let trials = 20000;
    let mut first = 0usize;
    // Weight ratio 2:1, denominators picked differently on purpose.
    let ws = vec![Weight { num: 4, den: 2 }, Weight { num: 1, den: 1 }];
    for _ in 0..trials {
        let draws: Vec<u64> = vec![rng.exp_draw(), rng.exp_draw()];
        let picked = efraimidis_spirakis_sample(&ws, 1, &draws);
        if picked[0] == 0 {
            first += 1;
        }
    }
    let share = first as f64 / trials as f64;
    // The heavy backend should win about two thirds of the time.
    assert!((share - 2.0 / 3.0).abs() < 0.02, "share {} too far from 2/3", share);
}
