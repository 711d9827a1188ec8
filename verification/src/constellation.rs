//! Constellation hashing over a peak spectrogram.
//!
//! The spectrogram is the time-ordered sequence of per-frame peak-bin sets.
//! Every peak of an anchor frame `t1` is paired with every peak of each
//! target frame `t2` in the half-open look-ahead range
//! `(t1, min(t1 + LOOK_AHEAD, frame_count))`, so the time delta `dt = t2 - t1`
//! always lies in `[1, LOOK_AHEAD - 1]`. Each pair becomes one record:
//! the packed hash and the anchor frame index.

use vstd::prelude::*;

use crate::LOOK_AHEAD;
use crate::hashing::lemma_hash_round_trip;
use crate::hashing::pack_hash;
use crate::hashing::spec_pack_hash;
use crate::hashing::spec_unpack_dt;
use crate::hashing::spec_unpack_f1;
use crate::hashing::spec_unpack_f2;

verus! {

/// One emitted fingerprint record: the packed constellation hash and the
/// index of the anchor frame it was generated from.
#[derive(Clone, Copy, PartialEq, Eq, Structural, Debug)]
pub struct Fingerprint {
    pub hash: u64,
    pub offset: u32,
}

/// Every bin index in the spectrogram is below `bound`.
pub open spec fn bins_bounded(sg: Seq<Seq<usize>>, bound: usize) -> bool {
    forall|t: int, i: int|
        0 <= t < sg.len() && 0 <= i < sg[t].len() ==> (#[trigger] sg[t][i]) < bound
}

/// Exclusive upper end of the look-ahead range for anchor frame `t1` in a
/// spectrogram of `n` frames.
pub open spec fn spec_look_end(n: int, t1: int) -> int {
    if t1 + (LOOK_AHEAD as int) < n {
        t1 + (LOOK_AHEAD as int)
    } else {
        n
    }
}

/// Records produced by anchor peak `f1` of frame `t1` against the first `m`
/// peaks of target frame `t2`.
pub open spec fn target_peak_hashes(
    f1: usize,
    t1: int,
    t2: int,
    targets: Seq<usize>,
    m: int,
) -> Seq<Fingerprint>
    decreases m,
{
    if m <= 0 {
        Seq::empty()
    } else {
        target_peak_hashes(f1, t1, t2, targets, m - 1).push(
            Fingerprint {
                hash: spec_pack_hash(f1 as u64, targets[m - 1] as u64, (t2 - t1) as u64),
                offset: t1 as u32,
            },
        )
    }
}

/// Records produced by anchor peak `f1` of frame `t1` against all target
/// frames in `(t1, t2_up)`.
pub open spec fn look_ahead_hashes(
    sg: Seq<Seq<usize>>,
    t1: int,
    f1: usize,
    t2_up: int,
) -> Seq<Fingerprint>
    decreases t2_up - t1,
{
    if t2_up <= t1 + 1 {
        Seq::empty()
    } else {
        look_ahead_hashes(sg, t1, f1, t2_up - 1) + target_peak_hashes(
            f1,
            t1,
            t2_up - 1,
            sg[t2_up - 1],
            sg[t2_up - 1].len() as int,
        )
    }
}

/// Records produced by the first `k` anchor peaks of frame `t1`, each paired
/// against its full look-ahead range.
pub open spec fn anchor_hashes(sg: Seq<Seq<usize>>, t1: int, k: int) -> Seq<Fingerprint>
    decreases k,
{
    if k <= 0 {
        Seq::empty()
    } else {
        anchor_hashes(sg, t1, k - 1) + look_ahead_hashes(
            sg,
            t1,
            sg[t1][k - 1],
            spec_look_end(sg.len() as int, t1),
        )
    }
}

/// Records produced by the first `t` anchor frames of the spectrogram.
pub open spec fn hashes_upto(sg: Seq<Seq<usize>>, t: int) -> Seq<Fingerprint>
    decreases t,
{
    if t <= 0 {
        Seq::empty()
    } else {
        hashes_upto(sg, t - 1) + anchor_hashes(sg, t - 1, sg[t - 1].len() as int)
    }
}

/// The complete record sequence for a spectrogram: anchor frames in order,
/// anchor peaks in frame order, target frames in ascending time order,
/// target peaks in frame order.
pub open spec fn spec_hash_all(sg: Seq<Seq<usize>>) -> Seq<Fingerprint> {
    hashes_upto(sg, sg.len() as int)
}

/// Field invariants of an emitted record, for a spectrogram of `n` frames:
/// the decoded delta lies in `[1, LOOK_AHEAD - 1]`, both decoded bins fit
/// the 12-bit fields, and the anchor frame plus the delta — the target
/// frame — is itself a valid frame index, so the anchor is always strictly
/// before its target.
pub open spec fn record_ok(n: int, fp: Fingerprint) -> bool {
    &&& 1 <= spec_unpack_dt(fp.hash) < (LOOK_AHEAD as int)
    &&& spec_unpack_f1(fp.hash) < 4096
    &&& spec_unpack_f2(fp.hash) < 4096
    &&& (fp.offset as int) + (spec_unpack_dt(fp.hash) as int) < n
}

/// Pairs every anchor peak with every target peak in its look-ahead range
/// and returns the packed records, in the order `spec_hash_all` defines.
#[verifier::loop_isolation(false)]
pub fn hash_all(sg: &Vec<Vec<usize>>) -> (r: Vec<Fingerprint>)
    requires
        sg@.len() <= u32::MAX as int,
        bins_bounded(sg.deep_view(), 4096),
    ensures
        r@ == spec_hash_all(sg.deep_view()),
        forall|i: int|
            0 <= i < r@.len() ==> record_ok(sg.deep_view().len() as int, #[trigger] r@[i]),
{
    let ghost sgv = sg.deep_view();
    proof {
        assert forall|t: int| 0 <= t < sg@.len() implies sgv[t] == sg@[t]@ by {
            assert(sgv[t] =~= sg@[t]@);
        }
    }
    let n = sg.len();
    let mut out: Vec<Fingerprint> = Vec::new();
    let mut t1: usize = 0;
    while t1 < n
        invariant
            t1 <= n,
            out@ == hashes_upto(sgv, t1 as int),
            forall|i: int| 0 <= i < out@.len() ==> record_ok(n as int, #[trigger] out@[i]),
        decreases n - t1,
    {
        let peaks = &sg[t1];
        let look_end = if n - t1 > LOOK_AHEAD {
            t1 + LOOK_AHEAD
        } else {
            n
        };
        assert(look_end == spec_look_end(n as int, t1 as int));
        let mut k: usize = 0;
        while k < peaks.len()
            invariant
                k <= peaks@.len(),
                out@ == hashes_upto(sgv, t1 as int) + anchor_hashes(sgv, t1 as int, k as int),
                forall|i: int| 0 <= i < out@.len() ==> record_ok(n as int, #[trigger] out@[i]),
            decreases peaks@.len() - k,
        {
            let f1 = peaks[k];
            assert(f1 == sgv[t1 as int][k as int]);
            let ghost pre_anchor = hashes_upto(sgv, t1 as int) + anchor_hashes(
                sgv,
                t1 as int,
                k as int,
            );
            let mut t2: usize = t1 + 1;
            while t2 < look_end
                invariant
                    t1 + 1 <= t2 <= look_end,
                    out@ == pre_anchor + look_ahead_hashes(sgv, t1 as int, f1, t2 as int),
                    forall|i: int| 0 <= i < out@.len() ==> record_ok(n as int, #[trigger] out@[i]),
                decreases look_end - t2,
            {
                let targets = &sg[t2];
                assert(targets@ == sgv[t2 as int]);
                let dt = t2 - t1;
                let ghost pre_look = pre_anchor + look_ahead_hashes(sgv, t1 as int, f1, t2 as int);
                let mut m: usize = 0;
                while m < targets.len()
                    invariant
                        m <= targets@.len(),
                        out@ == pre_look + target_peak_hashes(
                            f1,
                            t1 as int,
                            t2 as int,
                            sgv[t2 as int],
                            m as int,
                        ),
                        forall|i: int|
                            0 <= i < out@.len() ==> record_ok(n as int, #[trigger] out@[i]),
                    decreases targets@.len() - m,
                {
                    let f2 = targets[m];
                    assert(f2 == sgv[t2 as int][m as int]);
                    let h = pack_hash(f1, f2, dt);
                    let fp = Fingerprint { hash: h, offset: t1 as u32 };
                    proof {
                        lemma_hash_round_trip(f1 as u64, f2 as u64, dt as u64);
                        assert(record_ok(n as int, fp));
                        assert(out@.push(fp) =~= pre_look + target_peak_hashes(
                            f1,
                            t1 as int,
                            t2 as int,
                            sgv[t2 as int],
                            m as int + 1,
                        ));
                    }
                    out.push(fp);
                    m = m + 1;
                }
                proof {
                    assert(out@ =~= pre_anchor + look_ahead_hashes(
                        sgv,
                        t1 as int,
                        f1,
                        t2 as int + 1,
                    ));
                }
                t2 = t2 + 1;
            }
            proof {
                assert(out@ =~= hashes_upto(sgv, t1 as int) + anchor_hashes(
                    sgv,
                    t1 as int,
                    k as int + 1,
                ));
            }
            k = k + 1;
        }
        proof {
            assert(out@ =~= hashes_upto(sgv, t1 as int + 1));
        }
        t1 = t1 + 1;
    }
    out
}

} // verus!
