//! The geometry of a spectrogram image: one column block per cycle, one row
//! block per partial, low partials at the bottom.
use vstd::prelude::*;

verus! {

/// The side of the square block of pixels that draws one partial of one cycle.
pub const PIXEL_SIZE: u32 = 10;

/// The partials drawn: DC and the first 512 harmonics.
pub const NUM_PARTIALS_WE_CARE_ABOUT: usize = 513;

/// What a spectrogram run over one wavetable file asks for.
#[derive(Debug)]
pub struct SpectrogramArgs {
    pub input_file: String,
    pub phase: bool,
}

/// Width and height in pixels of the image for a table of `num_cycles` cycles.
pub fn image_size(num_cycles: usize) -> (r: (u32, u32))
    requires
        num_cycles * PIXEL_SIZE <= u32::MAX,
    ensures
        r.0 == num_cycles * PIXEL_SIZE,
        r.1 == NUM_PARTIALS_WE_CARE_ABOUT * PIXEL_SIZE,
{
    ((num_cycles as u32) * PIXEL_SIZE, (NUM_PARTIALS_WE_CARE_ABOUT as u32) * PIXEL_SIZE)
}

/// The pixel at offset (`k`, `m`) inside the block of partial `j` of cycle
/// `i`: cycles run left to right, and partial 0 sits in the bottom block.
pub fn pixel_position(i: u32, j: u32, k: u32, m: u32) -> (r: (u32, u32))
    requires
        j < NUM_PARTIALS_WE_CARE_ABOUT,
        k < PIXEL_SIZE,
        m < PIXEL_SIZE,
        (i + 1) * PIXEL_SIZE <= u32::MAX,
    ensures
        r.0 == i * PIXEL_SIZE + k,
        r.1 == (NUM_PARTIALS_WE_CARE_ABOUT - j - 1) * PIXEL_SIZE + m,
        r.0 < (i + 1) * PIXEL_SIZE,
        r.1 < NUM_PARTIALS_WE_CARE_ABOUT * PIXEL_SIZE,
{
    let x = i * PIXEL_SIZE + k;
    let y = (NUM_PARTIALS_WE_CARE_ABOUT as u32 - j - 1) * PIXEL_SIZE + m;
    (x, y)
}

} // verus!
