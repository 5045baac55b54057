use wavetool::naming::{factor_output_name, filter_output_name, spectrogram_output_name};
use wavetool::spectrogram::{image_size, pixel_position};
use wavetool::transform::{half_spectrum, mirror_spectrum, real_parts, TransformError};
use wavetool::wavetable::{TableError, WaveTable, PARTIAL_COUNT, WAVE_SAMPLES};

fn ramp(n: usize) -> Vec<f32> {
    (0..n).map(|i| i as f32).collect()
}

#[test]
fn partial_cycle_is_malformed() {
    let r = WaveTable::from_samples(1, &ramp(WAVE_SAMPLES + 5), None);
    assert_eq!(r.err(), Some(TableError::BadSampleCount));
    let r = WaveTable::from_samples(1, &ramp(WAVE_SAMPLES - 1), None);
    assert_eq!(r.err(), Some(TableError::BadSampleCount));
}

#[test]
fn empty_table_is_malformed() {
    let r = WaveTable::<f32>::from_samples(1, &Vec::new(), None);
    assert_eq!(r.err(), Some(TableError::BadSampleCount));
}

#[test]
fn stereo_is_refused() {
    let r = WaveTable::from_samples(2, &ramp(WAVE_SAMPLES), None);
    assert_eq!(r.err(), Some(TableError::NotMono));
}

#[test]
fn table_splits_into_cycles_and_back() {
    let samples = ramp(3 * WAVE_SAMPLES);
    let chunk = vec![1u8, 2, 3];
    let t = WaveTable::from_samples(1, &samples, Some(chunk.clone())).ok().unwrap();
    assert_eq!(t.num_cycles(), 3);
    assert_eq!(t.cycle(1)[0], WAVE_SAMPLES as f32);
    assert_eq!(t.cycle(2)[WAVE_SAMPLES - 1], (3 * WAVE_SAMPLES - 1) as f32);
    assert_eq!(t.clm_chunk(), Some(&chunk));
    assert_eq!(t.to_samples(), samples);
}

#[test]
fn replacing_a_cycle_keeps_the_rest() {
    let samples = ramp(2 * WAVE_SAMPLES);
    let mut t = WaveTable::from_samples(1, &samples, None).ok().unwrap();
    t.set_cycle(0, vec![0.25f32; WAVE_SAMPLES]);
    let out = t.to_samples();
    assert_eq!(out[0], 0.25);
    assert_eq!(out[WAVE_SAMPLES - 1], 0.25);
    assert_eq!(out[WAVE_SAMPLES], WAVE_SAMPLES as f32);
    assert_eq!(t.clm_chunk(), None);
}

#[test]
fn mirror_conjugates_the_upper_half() {
    let half: Vec<i64> = (0..PARTIAL_COUNT as i64).collect();
    let full = mirror_spectrum(&half, |x: i64| -x);
    assert_eq!(full.len(), WAVE_SAMPLES);
    assert_eq!(full[0], 0);
    assert_eq!(full[1024], 1024);
    assert_eq!(full[1025], -1023);
    assert_eq!(full[2047], -1);
}

#[test]
fn half_spectrum_keeps_the_lower_half_scaled() {
    let full: Vec<f32> = ramp(WAVE_SAMPLES);
    let half = half_spectrum(&full, |x: f32| x / WAVE_SAMPLES as f32);
    assert_eq!(half.len(), PARTIAL_COUNT);
    assert_eq!(half[1024], 0.5);
    assert_eq!(half[512], 0.25);
}

#[test]
fn residue_is_reported_at_its_index() {
    let samples: Vec<(f32, f32)> = vec![(1.0, 0.0), (2.0, 1e-9), (3.0, 0.5), (4.0, 0.0)];
    let check = |c: (f32, f32)| if c.1.abs() < 1e-6 { Some(c.0) } else { None };
    assert_eq!(real_parts(&samples, check).err(), Some(TransformError::ImaginaryResidue { index: 2 }));
    assert_eq!(real_parts(&samples[..2].to_vec(), check).ok(), Some(vec![1.0f32, 2.0]));
}

#[test]
fn output_names() {
    assert_eq!(factor_output_name("saw.wav", true, false, 7), "saw.wav.sup07.wav");
    assert_eq!(factor_output_name("a", false, true, 43), "a.unp43.wav");
    assert_eq!(filter_output_name("saw.wav"), "saw.wav.filtered.wav");
    assert_eq!(spectrogram_output_name("saw.wav"), "saw.wav.spectrum.png");
}

#[test]
fn spectrogram_geometry() {
    assert_eq!(image_size(4), (40, 5130));
    assert_eq!(pixel_position(0, 0, 0, 0), (0, 5120));
    assert_eq!(pixel_position(2, 512, 3, 9), (23, 9));
}
