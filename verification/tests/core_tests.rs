use synesthesia_core::constellation::Fingerprint;
use synesthesia_core::constellation::hash_all;
use synesthesia_core::fingerprint::fingerprint_spectra;
use synesthesia_core::frame_count;
use synesthesia_core::hashing::pack_hash;
use synesthesia_core::hashing::unpack_dt;
use synesthesia_core::hashing::unpack_f1;
use synesthesia_core::hashing::unpack_f2;
use synesthesia_core::peaks::pick_peaks;

const W: usize = 4096;

/// Strength key for a non-negative spectral magnitude: the IEEE-754 bit
/// pattern, which orders exactly as the magnitudes do.
fn key(mag: f32) -> u64 {
    mag.to_bits() as u64
}

/// The 10 dB noise floor under the key encoding: 20*log10(m) > 10 exactly
/// when m > 10^(1/2).
fn floor_key() -> u64 {
    key(10.0f32.sqrt())
}

#[test]
fn pack_single_value() {
    // (5 << 20) | (7 << 8) | 1
    assert_eq!(pack_hash(5, 7, 1), 5_244_673u64);
}

#[test]
fn pack_unpack_round_trip() {
    let cases = [
        (0usize, 0usize, 0usize),
        (1, 2, 3),
        (4095, 4095, 255),
        (4095, 0, 1),
        (0, 4095, 9),
        (2047, 19, 9),
        (100, 2047, 1),
    ];
    for &(f1, f2, dt) in cases.iter() {
        let h = pack_hash(f1, f2, dt);
        assert_eq!(unpack_f1(h), f1 as u64);
        assert_eq!(unpack_f2(h), f2 as u64);
        assert_eq!(unpack_dt(h), dt as u64);
        assert_eq!(h >> 32, 0);
    }
}

#[test]
fn frame_count_formula() {
    assert_eq!(frame_count(0), 0);
    assert_eq!(frame_count(4095), 0);
    assert_eq!(frame_count(4096), 0);
    assert_eq!(frame_count(4096 + 2047), 0);
    assert_eq!(frame_count(4096 + 2048), 1);
    assert_eq!(frame_count(4096 + 2048 * 3), 3);
    assert_eq!(frame_count(4096 + 2048 * 3 + 1), 3);
    assert_eq!(frame_count(1_000_000), (1_000_000 - 4096) / 2048);
}

#[test]
fn hash_all_single_pair() {
    let sg: Vec<Vec<usize>> = vec![vec![5], vec![7]];
    let r = hash_all(&sg);
    assert_eq!(r.len(), 1);
    assert_eq!(r[0].hash, pack_hash(5, 7, 1));
    assert_eq!(r[0].offset, 0);
}

#[test]
fn hash_all_order_and_counts() {
    // Three frames, one peak each: pairs (0,1), (0,2), (1,2).
    let sg: Vec<Vec<usize>> = vec![vec![10], vec![20], vec![30]];
    let r = hash_all(&sg);
    assert_eq!(r.len(), 3);
    assert_eq!(r[0].hash, pack_hash(10, 20, 1));
    assert_eq!(r[0].offset, 0);
    assert_eq!(r[1].hash, pack_hash(10, 30, 2));
    assert_eq!(r[1].offset, 0);
    assert_eq!(r[2].hash, pack_hash(20, 30, 1));
    assert_eq!(r[2].offset, 1);
}

#[test]
fn hash_all_dt_bounds() {
    // Twelve frames, one peak each: the look-ahead caps dt at 9.
    let sg: Vec<Vec<usize>> = (0..12).map(|t| vec![t + 1]).collect();
    let r = hash_all(&sg);
    for fp in &r {
        let dt = unpack_dt(fp.hash);
        assert!(1 <= dt && dt <= 9);
        assert!((fp.offset as u64) + dt < 12);
    }
    // Frame 0 pairs with frames 1..=9 only.
    let from0 = r.iter().filter(|fp| fp.offset == 0).count();
    assert_eq!(from0, 9);
}

#[test]
fn hash_all_empty() {
    let sg: Vec<Vec<usize>> = Vec::new();
    assert_eq!(hash_all(&sg).len(), 0);
    let lone: Vec<Vec<usize>> = vec![vec![42]];
    assert_eq!(hash_all(&lone).len(), 0);
}

#[test]
fn pick_single_spike() {
    let mut s = vec![key(0.0); W];
    s[9] = key(50.0);
    s[10] = key(100.0);
    s[11] = key(50.0);
    let p = pick_peaks(&s, floor_key());
    assert_eq!(p, vec![10]);
}

#[test]
fn pick_respects_noise_floor() {
    let mut s = vec![key(0.0); W];
    // Exactly at the floor: rejected (the test is strict).
    s[50] = floor_key();
    let p = pick_peaks(&s, floor_key());
    assert!(p.is_empty());
    // Just above the floor: kept.
    s[50] = key(3.17);
    let p2 = pick_peaks(&s, floor_key());
    assert_eq!(p2, vec![50]);
}

#[test]
fn pick_per_band_cap() {
    // Seven isolated spikes in the mid band; only the strongest five stay,
    // in descending strength order.
    let mut s = vec![key(0.0); W];
    let spikes = [(30, 20.0), (33, 21.0), (36, 22.0), (39, 23.0), (42, 24.0), (45, 25.0), (48, 26.0)];
    for &(b, m) in spikes.iter() {
        s[b] = key(m);
    }
    let p = pick_peaks(&s, floor_key());
    assert_eq!(p, vec![48, 45, 42, 39, 36]);
}

#[test]
fn pick_band_containment_and_order() {
    // One spike per band: the result is band-major.
    let mut s = vec![key(0.0); W];
    s[19] = key(40.0); // low band ends at bin 20
    s[150] = key(60.0); // mid band
    s[1000] = key(50.0); // high band
    let p = pick_peaks(&s, floor_key());
    assert_eq!(p, vec![19, 150, 1000]);
    for &b in &p {
        assert!(0 < b && b < 2048);
    }
}

#[test]
fn pick_edge_bins_never_peaks() {
    // Bin 0 has no left neighbor and is never a candidate, however strong.
    let mut s = vec![key(0.0); W];
    s[0] = key(1000.0);
    let p = pick_peaks(&s, floor_key());
    assert!(p.is_empty());
}

#[test]
fn fingerprint_spectra_empty_input() {
    let spectra: Vec<Vec<u64>> = Vec::new();
    let r = fingerprint_spectra(&spectra, floor_key());
    assert!(r.is_empty());
}

#[test]
fn fingerprint_spectra_silence() {
    // All-zero spectra: nothing clears the floor, no records at all.
    let spectra: Vec<Vec<u64>> = vec![vec![key(0.0); W]; 4];
    let r = fingerprint_spectra(&spectra, floor_key());
    assert!(r.is_empty());
}

#[test]
fn fingerprint_spectra_two_frames() {
    let mut a = vec![key(0.0); W];
    a[100] = key(90.0);
    let mut b = vec![key(0.0); W];
    b[300] = key(80.0);
    let spectra = vec![a, b];
    let r = fingerprint_spectra(&spectra, floor_key());
    assert_eq!(r.len(), 1);
    assert_eq!(r[0].hash, pack_hash(100, 300, 1));
    assert_eq!(r[0].offset, 0);
}

#[test]
fn fingerprint_spectra_deterministic() {
    let mut a = vec![key(0.0); W];
    a[25] = key(30.0);
    a[500] = key(45.0);
    let mut b = vec![key(0.0); W];
    b[26] = key(35.0);
    let spectra = vec![a, b];
    let r1 = fingerprint_spectra(&spectra, floor_key());
    let r2 = fingerprint_spectra(&spectra, floor_key());
    assert_eq!(r1, r2);
    assert!(!r1.is_empty());
}

#[test]
fn fingerprint_record_struct_fields() {
    let fp = Fingerprint { hash: pack_hash(1, 2, 3), offset: 7 };
    assert_eq!(unpack_f1(fp.hash), 1);
    assert_eq!(unpack_f2(fp.hash), 2);
    assert_eq!(unpack_dt(fp.hash), 3);
    assert_eq!(fp.offset, 7);
}
