use rustfft::num_complex::Complex;
use rustfft::FFTplanner;
use wavetool::factor::factor_by_prime;
use wavetool::transform::{half_spectrum, mirror_spectrum, real_parts};
use wavetool::wavetable::{PARTIAL_COUNT, WAVE_SAMPLES};

fn forward(cycle: &[f32]) -> Vec<Complex<f32>> {
    let mut input: Vec<Complex<f32>> = cycle.iter().map(|s| Complex { re: *s, im: 0.0 }).collect();
    let mut output = vec![Complex::new(0.0f32, 0.0); WAVE_SAMPLES];
    let mut planner = FFTplanner::new(false);
    planner.plan_fft(WAVE_SAMPLES).process(&mut input, &mut output);
    half_spectrum(&output, |c: Complex<f32>| c / (WAVE_SAMPLES as f32))
}

fn inverse(partials: &Vec<Complex<f32>>) -> Vec<f32> {
    let mut input = mirror_spectrum(partials, |c: Complex<f32>| c.conj());
    let mut output = vec![Complex::new(0.0f32, 0.0); WAVE_SAMPLES];
    let mut planner = FFTplanner::new(true);
    planner.plan_fft(WAVE_SAMPLES).process(&mut input, &mut output);
    real_parts(&output, |c: Complex<f32>| if c.im.abs() < 0.000001 { Some(c.re) } else { None })
        .ok()
        .unwrap()
}

fn saw() -> Vec<f32> {
    (0..WAVE_SAMPLES).map(|i| 1.0 - 2.0 * i as f32 / WAVE_SAMPLES as f32).collect()
}

#[test]
fn test_fft_fft() {
    let cycle = saw();
    let back = inverse(&forward(&cycle));
    for (a, b) in cycle.iter().zip(back.iter()) {
        assert!((a - b).abs() <= 0.0001, "{} {}", a, b);
    }
}

#[test]
fn test_fft_edit_fft() {
    let mut partials = forward(&saw());
    for i in 1..partials.len() {
        if i % 3 == 0 || i % 2 == 0 {
            partials[i] = Complex::new(0.0, 0.0);
        }
    }
    let partials2 = forward(&inverse(&partials));
    for (a, b) in partials.iter().zip(partials2.iter()) {
        assert!((a.norm() - b.norm()).abs() <= 0.0001, "{}, {}", a.norm(), b.norm());
    }
}

#[test]
fn round_trip_of_a_mixed_cycle() {
    let cycle: Vec<f32> = (0..WAVE_SAMPLES)
        .map(|i| {
            let t = i as f32 / WAVE_SAMPLES as f32 * std::f32::consts::PI * 2.0;
            0.5 * t.sin() + 0.25 * (3.0 * t).cos() - 0.125 * (17.0 * t).sin() + 0.1
        })
        .collect();
    let back = inverse(&forward(&cycle));
    assert_eq!(back.len(), WAVE_SAMPLES);
    for (a, b) in cycle.iter().zip(back.iter()) {
        assert!((a - b).abs() <= 0.0001, "{} {}", a, b);
    }
}

#[test]
fn pure_sine_has_only_the_fundamental() {
    let cycle: Vec<f32> = (0..WAVE_SAMPLES)
        .map(|i| (i as f32 / WAVE_SAMPLES as f32 * std::f32::consts::PI * 2.0).sin())
        .collect();
    let partials = forward(&cycle);
    assert_eq!(partials.len(), PARTIAL_COUNT);
    assert!((partials[1].norm() - 0.5).abs() < 0.001);
    for (i, p) in partials.iter().enumerate() {
        if i != 1 {
            assert!(p.norm() < 0.0001, "index {}: {}", i, p.norm());
        }
    }
}

#[test]
fn factored_saw_reconstructs_to_a_real_cycle() {
    let partials = forward(&saw());
    let branch = factor_by_prime(&partials, Complex::new(0.0, 0.0), 3, true);
    let cycle = inverse(&branch);
    let again = forward(&cycle);
    for (a, b) in branch.iter().zip(again.iter()) {
        assert!((a - b).norm() <= 0.0001);
    }
}
