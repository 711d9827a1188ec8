//! End-to-end fingerprinting over a sequence of frame spectra.
//!
//! The caller supplies one strength-key array per frame — the per-bin
//! spectral magnitudes of that frame under any strictly order-preserving
//! integer encoding — together with the noise floor under the same
//! encoding. Each frame yields its banded peak set, the peak sets form the
//! spectrogram in frame order, and the constellation hasher turns the
//! spectrogram into the final record sequence.

use vstd::prelude::*;

use crate::WINDOW_SIZE;
use crate::constellation::Fingerprint;
use crate::constellation::bins_bounded;
use crate::constellation::hash_all;
use crate::constellation::record_ok;
use crate::constellation::spec_hash_all;
use crate::peaks::BAND_END;
use crate::peaks::is_frame_pick;
use crate::peaks::pick_peaks;

verus! {

/// `sg` is the peak spectrogram of the frame spectra `spectra`: one peak
/// set per frame, each the banded pick of its frame.
pub open spec fn is_spectrogram(
    spectra: Seq<Seq<u64>>,
    floor: u64,
    sg: Seq<Seq<usize>>,
) -> bool {
    &&& sg.len() == spectra.len()
    &&& forall|t: int| 0 <= t < sg.len() ==> is_frame_pick(spectra[t], floor, #[trigger] sg[t])
}

/// The peak spectrogram is unique: any two spectrograms of the same frame
/// spectra and floor are equal.
pub proof fn lemma_spectrogram_unique(
    spectra: Seq<Seq<u64>>,
    floor: u64,
    sg1: Seq<Seq<usize>>,
    sg2: Seq<Seq<usize>>,
)
    requires
        is_spectrogram(spectra, floor, sg1),
        is_spectrogram(spectra, floor, sg2),
    ensures
        sg1 == sg2,
{
    assert forall|t: int| 0 <= t < sg1.len() implies sg1[t] == sg2[t] by {
        crate::peaks::lemma_frame_pick_unique(spectra[t], floor, sg1[t], sg2[t]);
    }
    assert(sg1 =~= sg2);
}

/// Determinism of the pipeline: for fixed frame spectra and floor, the
/// record sequence that `fingerprint_spectra` ensures is unique, so two
/// runs on the same input return bit-identical results.
pub proof fn lemma_fingerprint_deterministic(
    spectra: Seq<Seq<u64>>,
    floor: u64,
    sg1: Seq<Seq<usize>>,
    sg2: Seq<Seq<usize>>,
    r1: Seq<Fingerprint>,
    r2: Seq<Fingerprint>,
)
    requires
        is_spectrogram(spectra, floor, sg1),
        r1 == spec_hash_all(sg1),
        is_spectrogram(spectra, floor, sg2),
        r2 == spec_hash_all(sg2),
    ensures
        r1 == r2,
{
    lemma_spectrogram_unique(spectra, floor, sg1, sg2);
}

/// Runs the whole pipeline on the given frame spectra: picks each frame's
/// banded peak set and pairs the peaks into constellation records. The
/// result is exactly the constellation hashing of the peak spectrogram, and
/// every record satisfies the field invariants — in particular no frames
/// means no records.
#[verifier::loop_isolation(false)]
pub fn fingerprint_spectra(spectra: &Vec<Vec<u64>>, floor: u64) -> (r: Vec<Fingerprint>)
    requires
        spectra@.len() <= u32::MAX as int,
        forall|t: int| 0 <= t < spectra@.len() ==> (#[trigger] spectra@[t])@.len() == WINDOW_SIZE,
    ensures
        exists|sg: Seq<Seq<usize>>|
            #[trigger] is_spectrogram(spectra.deep_view(), floor, sg) && r@ == spec_hash_all(sg),
        forall|i: int|
            0 <= i < r@.len() ==> record_ok(spectra@.len() as int, #[trigger] r@[i]),
        spectra@.len() == 0 ==> r@.len() == 0,
{
    let ghost spv = spectra.deep_view();
    proof {
        assert forall|t: int| 0 <= t < spectra@.len() implies spv[t] == spectra@[t]@ by {
            assert(spv[t] =~= spectra@[t]@);
        }
    }
    let n = spectra.len();
    let mut sg: Vec<Vec<usize>> = Vec::new();
    let mut t: usize = 0;
    while t < n
        invariant
            t <= n,
            sg@.len() == t as int,
            forall|u: int| 0 <= u < t as int ==> is_frame_pick(spv[u], floor, (#[trigger] sg@[u])@),
            forall|u: int, i: int|
                0 <= u < t as int && 0 <= i < sg@[u]@.len() ==> 0 < (#[trigger] sg@[u]@[i])
                    < BAND_END,
        decreases n - t,
    {
        let frame = &spectra[t];
        let peaks = pick_peaks(frame, floor);
        sg.push(peaks);
        t = t + 1;
    }
    let ghost sgv = sg.deep_view();
    proof {
        assert forall|u: int| 0 <= u < sg@.len() implies sgv[u] == sg@[u]@ by {
            assert(sgv[u] =~= sg@[u]@);
        }
        assert(bins_bounded(sgv, 4096));
        assert(is_spectrogram(spv, floor, sgv));
    }
    let r = hash_all(&sg);
    proof {
        assert(r@ == spec_hash_all(sgv));
        if n == 0 {
            assert(spec_hash_all(sgv).len() == 0);
        }
    }
    r
}

} // verus!
