use wavetool::filter::{Bitmap, FilterArgs, FilterError, PartialFilter};
use wavetool::wavetable::PARTIAL_COUNT;

fn args() -> FilterArgs {
    FilterArgs {
        input_file: String::from("table.wav"),
        keep_even: false,
        keep_odd: false,
        keep_bitmap: None,
        keep_pattern: None,
        protect_fundamental: false,
        normalize: false,
    }
}

fn ones() -> Vec<f32> {
    vec![1.0f32; PARTIAL_COUNT]
}

fn apply(a: &FilterArgs, s: &Vec<f32>) -> Vec<f32> {
    PartialFilter::from_args(a).ok().unwrap().apply(s, 0.0)
}

#[test]
fn bitmap_parses_bits() {
    let b = Bitmap::from_string("0110").ok().unwrap();
    assert_eq!(b.len(), 4);
    assert!(!b.get(0));
    assert!(b.get(1));
    assert!(b.get(2));
    assert!(!b.get(3));
    assert_eq!(Bitmap::from_string("").ok().unwrap().len(), 0);
}

#[test]
fn bitmap_rejects_other_characters() {
    assert_eq!(Bitmap::from_string("01x1").err(), Some(FilterError::InvalidBitstring));
    assert_eq!(Bitmap::from_string("0 1").err(), Some(FilterError::InvalidBitstring));
}

#[test]
fn alternating_bitmap_keeps_odd_indices_within_the_mask() {
    let mut a = args();
    a.keep_bitmap = Some("01".repeat(50));
    let out = apply(&a, &ones());
    for p in 0..PARTIAL_COUNT {
        let expected = if p < 100 && p % 2 == 1 { 1.0 } else { 0.0 };
        assert_eq!(out[p], expected, "index {}", p);
    }
}

#[test]
fn no_option_leaves_the_set_unchanged() {
    let s: Vec<f32> = (0..PARTIAL_COUNT).map(|i| i as f32 * 0.5).collect();
    assert_eq!(apply(&args(), &s), s);
}

#[test]
fn even_and_odd_together_zero_everything() {
    let mut a = args();
    a.keep_even = true;
    assert_eq!(apply(&a, &ones())[2], 1.0);
    assert_eq!(apply(&a, &ones())[3], 0.0);
    a.keep_odd = true;
    assert_eq!(apply(&a, &ones()), vec![0.0f32; PARTIAL_COUNT]);
}

#[test]
fn keep_odd_zeroes_dc() {
    let mut a = args();
    a.keep_odd = true;
    let out = apply(&a, &ones());
    assert_eq!(out[0], 0.0);
    assert_eq!(out[1], 1.0);
    assert_eq!(out[1024], 0.0);
}

#[test]
fn pattern_is_tiled() {
    let mut a = args();
    a.keep_pattern = Some(String::from("001"));
    let out = apply(&a, &ones());
    for p in 0..PARTIAL_COUNT {
        let expected = if p % 3 == 2 { 1.0 } else { 0.0 };
        assert_eq!(out[p], expected, "index {}", p);
    }
}

#[test]
fn empty_pattern_is_refused() {
    let mut a = args();
    a.keep_pattern = Some(String::new());
    assert_eq!(PartialFilter::from_args(&a).err(), Some(FilterError::EmptyPattern));
}

#[test]
fn invalid_pattern_is_refused() {
    let mut a = args();
    a.keep_pattern = Some(String::from("12"));
    assert_eq!(PartialFilter::from_args(&a).err(), Some(FilterError::InvalidBitstring));
    let mut b = args();
    b.keep_bitmap = Some(String::from("2"));
    b.keep_pattern = Some(String::new());
    assert_eq!(PartialFilter::from_args(&b).err(), Some(FilterError::InvalidBitstring));
}

#[test]
fn protected_fundamental_survives_every_mask() {
    let mut a = args();
    a.keep_even = true;
    a.keep_bitmap = Some(String::from("1"));
    a.keep_pattern = Some(String::from("0"));
    a.protect_fundamental = true;
    let s: Vec<f32> = (0..PARTIAL_COUNT).map(|i| i as f32 + 2.0).collect();
    let out = apply(&a, &s);
    assert_eq!(out[1], 3.0);
    assert_eq!(out[0], 0.0);
    assert_eq!(out[2], 0.0);
}

#[test]
fn filtering_twice_equals_filtering_once() {
    let mut a = args();
    a.keep_odd = true;
    a.keep_pattern = Some(String::from("0111"));
    a.protect_fundamental = true;
    let s: Vec<f32> = (0..PARTIAL_COUNT).map(|i| 1.0 + i as f32).collect();
    let once = apply(&a, &s);
    let twice = apply(&a, &once);
    assert_eq!(once, twice);
    assert_eq!(once[3], 4.0);
    assert_eq!(once[4], 0.0);
    assert_eq!(once[5], 6.0);
    assert_eq!(once[1], 2.0);
}
