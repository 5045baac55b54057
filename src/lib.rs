//! Editing and analysis of single-cycle wavetables in the frequency domain.
//!
//! The library holds the exact, index-level logic of the editor: which
//! partials a filter keeps, which harmonics belong to a prime branch and where
//! a shifted branch lands, how a table is cut into cycles and flattened again,
//! where the vendor chunk sits in a wave container, and how the redundant
//! half of a real signal's spectrum is laid out. The
//! coefficients themselves are carried as an arbitrary `Copy` type, so the
//! same verified code runs on complex spectra, on plain samples and on the
//! integer stand-ins used by the tests.
pub mod prime;
pub mod factor;
pub mod filter;
pub mod wavetable;
pub mod riff;
pub mod transform;
pub mod naming;
pub mod spectrogram;
