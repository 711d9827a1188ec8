use rustfft::FftPlanner;
use rustfft::num_complex::Complex;
use synesthesia_core::fingerprint::fingerprint_spectra;
use synesthesia_core::frame_count;
use synesthesia_core::hashing::unpack_dt;
use synesthesia_core::peaks::pick_peaks;

const W: usize = 4096;
const H: usize = 2048;

fn key(mag: f32) -> u64 {
    mag.to_bits() as u64
}

fn floor_key() -> u64 {
    key(10.0f32.sqrt())
}

fn hann(size: usize) -> Vec<f32> {
    (0..size)
        .map(|i| 0.5 * (1.0 - (2.0 * std::f32::consts::PI * i as f32 / (size as f32 - 1.0)).cos()))
        .collect()
}

/// Windows each frame, transforms it, and encodes the per-bin magnitudes as
/// order-preserving integer keys, exactly as a host application would.
fn spectra_of(samples: &[f32]) -> Vec<Vec<u64>> {
    let mut planner = FftPlanner::new();
    let fft = planner.plan_fft_forward(W);
    let window = hann(W);
    let n = frame_count(samples.len());
    let mut out = Vec::new();
    for i in 0..n {
        let start = i * H;
        let mut buf: Vec<Complex<f32>> = (0..W)
            .map(|j| Complex::new(samples[start + j] * window[j], 0.0))
            .collect();
        fft.process(&mut buf);
        out.push(buf.iter().map(|c| key(c.norm())).collect());
    }
    out
}

#[test]
fn pure_tone_peaks_at_its_bin() {
    // A sinusoid landing exactly on bin 100; every frame sees the tone.
    let len = W + H * 3;
    let samples: Vec<f32> = (0..len)
        .map(|i| (2.0 * std::f32::consts::PI * 100.0 * i as f32 / W as f32).sin())
        .collect();
    let spectra = spectra_of(&samples);
    assert_eq!(spectra.len(), 3);
    for s in &spectra {
        let p = pick_peaks(s, floor_key());
        assert!(p.iter().any(|&b| (99..=101).contains(&b)));
    }
    let r = fingerprint_spectra(&spectra, floor_key());
    assert!(!r.is_empty());
    // Anchors run up to the second-to-last frame: each anchor needs a
    // strictly later target frame.
    let max_offset = r.iter().map(|fp| fp.offset).max().unwrap();
    assert_eq!(max_offset as usize, frame_count(len) - 2);
    for fp in &r {
        let dt = unpack_dt(fp.hash);
        assert!((1..=9).contains(&dt));
    }
}

#[test]
fn silence_produces_no_hashes() {
    // An all-zero buffer: no bin clears the 10 dB floor in any frame.
    let samples = vec![0.0f32; W + H * 2];
    let spectra = spectra_of(&samples);
    assert_eq!(spectra.len(), 2);
    let r = fingerprint_spectra(&spectra, floor_key());
    assert!(r.is_empty());
}
