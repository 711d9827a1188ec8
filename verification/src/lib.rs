//! Acoustic fingerprinting core: constellation hashing over banded spectral
//! peaks.
//!
//! The engine works on one mono channel sampled at 44.1 kHz. A buffer is cut
//! into overlapping frames of `WINDOW_SIZE` samples spaced `HOP_SIZE` apart;
//! each frame's spectrum yields up to five peak bins per frequency band, and
//! pairs of peaks from nearby frames are packed into 64-bit hashes.
//!
//! Everything here is integer logic: callers supply per-bin spectral
//! strengths as order-preserving integer keys (any strictly monotone encoding
//! of the magnitude scale), and receive peak bins and packed hashes back.

use vstd::prelude::*;

pub mod constellation;
pub mod fingerprint;
pub mod hashing;
pub mod peaks;

verus! {

/// Samples per analysis frame, and the transform size.
pub const WINDOW_SIZE: usize = 4096;

/// Samples between the starts of consecutive frames (50% overlap).
pub const HOP_SIZE: usize = 2048;

/// Width of the constellation look-ahead window in frames; usable forward
/// deltas are `1..LOOK_AHEAD`.
pub const LOOK_AHEAD: usize = 10;

/// Number of frames cut from a buffer of `len` samples.
pub open spec fn spec_frame_count(len: int) -> int {
    if len < WINDOW_SIZE as int {
        0
    } else {
        (len - WINDOW_SIZE as int) / HOP_SIZE as int
    }
}

/// How many full frames a buffer of `len` samples yields: zero when the
/// buffer is shorter than one frame, else `(len - WINDOW_SIZE) / HOP_SIZE`.
pub fn frame_count(len: usize) -> (n: usize)
    ensures
        n == spec_frame_count(len as int),
        len < WINDOW_SIZE ==> n == 0,
{
    if len < WINDOW_SIZE {
        0
    } else {
        (len - WINDOW_SIZE) / HOP_SIZE
    }
}

} // verus!
