//! Fixed-point audio analysis: spectrograms, waveform overviews and
//! power-spectrum peak estimation.
//!
//! Every quantity is carried as a Q16 fixed-point integer (`fixed::ONE`
//! units per 1.0), so that window formulas, transforms, dB scaling and
//! resampling are exact, deterministic integer computations with proved
//! contracts.

pub mod dft;
pub mod engine;
pub mod fixed;
pub mod power;
pub mod quantize;
pub mod waveform;
pub mod window;
