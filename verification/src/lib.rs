//! Per-channel colour histograms and waveform scopes of RGB rasters,
//! rendered as rasters themselves.

pub mod arith;
pub mod bignat;
pub mod canvas;
pub mod compositor;
pub mod counter;
pub mod histogram;
pub mod image;
pub mod reorder;
pub mod waveform;
