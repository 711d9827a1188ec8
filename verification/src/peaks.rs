//! Banded peak selection over one frame's spectrum.
//!
//! The spectrum's per-bin strengths arrive as integer keys under any
//! strictly order-preserving encoding of the magnitude scale; the noise
//! floor arrives under the same encoding. A bin is a candidate peak when it
//! is a strict local maximum over its two neighbor bins and its strength is
//! strictly above the floor. Within each of the three frequency bands the
//! strongest candidates are kept, at most `PEAKS_PER_BAND` of them, in
//! descending strength order with ties kept stable (earlier bin first); the
//! frame's peak set is the concatenation of the three band picks,
//! band-major.

use vstd::prelude::*;

use crate::WINDOW_SIZE;

verus! {

/// First bin of the low band.
pub const BAND_LOW_START: usize = 0;

/// First bin of the mid band (about 200 Hz at 44.1 kHz with a 4096 window).
pub const BAND_MID_START: usize = 20;

/// First bin of the high band (about 2 kHz).
pub const BAND_HIGH_START: usize = 200;

/// Exclusive end of the high band: only bins below `WINDOW_SIZE / 2` carry
/// independent information for real input.
pub const BAND_END: usize = 2048;

/// At most this many peaks are kept per band.
pub const PEAKS_PER_BAND: usize = 5;

/// Bin `b` is a candidate peak: a strict local maximum over its immediate
/// neighbors, strictly above the noise floor. Bin 0 and the last bin have
/// no two neighbors and are never candidates.
pub open spec fn is_candidate(s: Seq<u64>, floor: u64, b: int) -> bool {
    &&& 0 < b
    &&& b + 1 < s.len()
    &&& s[b] > s[b - 1]
    &&& s[b] > s[b + 1]
    &&& s[b] > floor
}

/// Number of candidate bins in `[lo, hi)`.
pub open spec fn candidate_count(s: Seq<u64>, floor: u64, lo: int, hi: int) -> int
    decreases hi - lo,
{
    if hi <= lo {
        0
    } else {
        candidate_count(s, floor, lo, hi - 1) + if is_candidate(s, floor, hi - 1) {
            1int
        } else {
            0int
        }
    }
}

/// Candidate `b` ranks strictly below entry `p[i]`: weaker, or equally
/// strong but at a higher bin (the stable tie order keeps the earlier bin).
pub open spec fn ranks_below(s: Seq<u64>, b: int, p: Seq<usize>, i: int) -> bool {
    s[b] < s[p[i] as int] || (s[b] == s[p[i] as int] && b > p[i] as int)
}

/// `p` is the pick for the band `[lo, hi)`: as many candidates as the band
/// has, capped at `PEAKS_PER_BAND`; every entry a distinct candidate bin of
/// the band, in descending strength order with ties in ascending bin order;
/// and every candidate left out ranks strictly below every entry kept. This
/// determines `p` uniquely.
pub open spec fn is_band_pick(s: Seq<u64>, floor: u64, lo: int, hi: int, p: Seq<usize>) -> bool {
    &&& p.len() == vstd::math::min(PEAKS_PER_BAND as int, candidate_count(s, floor, lo, hi))
    &&& (forall|i: int| 0 <= i < p.len() ==> lo <= ((#[trigger] p[i]) as int) < hi)
    &&& (forall|i: int| 0 <= i < p.len() ==> is_candidate(s, floor, (#[trigger] p[i]) as int))
    &&& (forall|i: int, j: int|
        0 <= i < j < p.len() ==> s[(#[trigger] p[i]) as int] >= s[(#[trigger] p[j]) as int])
    &&& (forall|i: int, j: int|
        0 <= i < j < p.len() && s[(#[trigger] p[i]) as int] == s[(#[trigger] p[j]) as int]
            ==> p[i] < p[j])
    &&& (forall|i: int, j: int| 0 <= i < j < p.len() ==> (#[trigger] p[i]) != (#[trigger] p[j]))
    &&& (forall|b: int|
        lo <= b < hi && #[trigger] is_candidate(s, floor, b) && !p.contains(b as usize)
            ==> p.len() == (PEAKS_PER_BAND as int) && (forall|i: int|
            0 <= i < p.len() ==> ranks_below(s, b, p, i)))
}

/// Some entry of `p` carries bin `b`.
pub open spec fn holds_bin(p: Seq<(usize, u64)>, b: int) -> bool {
    exists|i: int| 0 <= i < p.len() && ((#[trigger] p[i]).0 as int) == b
}

/// Invariant of the running selection after scanning bins `[lo, bin)`:
/// `best` holds the capped strongest candidates seen so far as
/// (bin, strength) pairs, in descending strength order with stable ties,
/// and every scanned candidate left out ranks below every pair kept.
spec fn best_inv(sv: Seq<u64>, floor: u64, lo: int, bin: int, best: Seq<(usize, u64)>) -> bool {
    &&& best.len() == vstd::math::min(PEAKS_PER_BAND as int, candidate_count(sv, floor, lo, bin))
    &&& (forall|i: int| 0 <= i < best.len() ==> lo <= ((#[trigger] best[i]).0 as int) < bin)
    &&& (forall|i: int|
        0 <= i < best.len() ==> is_candidate(sv, floor, (#[trigger] best[i]).0 as int))
    &&& (forall|i: int| 0 <= i < best.len() ==> (#[trigger] best[i]).1 == sv[best[i].0 as int])
    &&& (forall|i: int, j: int|
        0 <= i < j < best.len() ==> (#[trigger] best[i]).1 >= (#[trigger] best[j]).1)
    &&& (forall|i: int, j: int|
        0 <= i < j < best.len() && (#[trigger] best[i]).1 == (#[trigger] best[j]).1
            ==> best[i].0 < best[j].0)
    &&& (forall|i: int, j: int|
        0 <= i < j < best.len() ==> (#[trigger] best[i]).0 != (#[trigger] best[j]).0)
    &&& (forall|b: int|
        lo <= b < bin && #[trigger] is_candidate(sv, floor, b) && !holds_bin(best, b)
            ==> best.len() == (PEAKS_PER_BAND as int) && (forall|i: int|
            0 <= i < best.len() ==> sv[b] < (#[trigger] best[i]).1 || (sv[b] == best[i].1 && b
                > best[i].0 as int)))
}

/// Scanning past a bin that is no candidate leaves the selection as it is.
proof fn lemma_best_skip(sv: Seq<u64>, floor: u64, lo: int, bin: int, best: Seq<(usize, u64)>)
    requires
        lo <= bin,
        best_inv(sv, floor, lo, bin, best),
        !is_candidate(sv, floor, bin),
    ensures
        best_inv(sv, floor, lo, bin + 1, best),
{
    assert(candidate_count(sv, floor, lo, bin + 1) == candidate_count(sv, floor, lo, bin));
}

/// Inserting candidate `bin` at its rank position, then dropping the last
/// pair if the cap is exceeded, re-establishes the invariant for the
/// extended prefix. `pos` is where the scan of the old selection stopped:
/// everything before it is at least as strong as the new candidate,
/// everything from it on strictly weaker.
#[verifier::rlimit(100)]
proof fn lemma_best_step(
    sv: Seq<u64>,
    floor: u64,
    lo: int,
    bin: usize,
    pos: int,
    old_best: Seq<(usize, u64)>,
    fin: Seq<(usize, u64)>,
)
    requires
        lo <= bin as int,
        best_inv(sv, floor, lo, bin as int, old_best),
        is_candidate(sv, floor, bin as int),
        0 <= pos <= old_best.len(),
        forall|i: int| 0 <= i < pos ==> (#[trigger] old_best[i]).1 >= sv[bin as int],
        pos == old_best.len() || old_best[pos].1 < sv[bin as int],
        fin == if old_best.len() < (PEAKS_PER_BAND as int) {
            old_best.insert(pos, (bin, sv[bin as int]))
        } else {
            old_best.insert(pos, (bin, sv[bin as int])).subrange(0, PEAKS_PER_BAND as int)
        },
    ensures
        best_inv(sv, floor, lo, bin as int + 1, fin),
{
    let key = sv[bin as int];
    let ins = old_best.insert(pos, (bin, key));
    old_best.insert_ensures(pos, (bin, key));
    assert(ins[pos] == (bin, key));
    assert(candidate_count(sv, floor, lo, bin as int + 1) == candidate_count(
        sv,
        floor,
        lo,
        bin as int,
    ) + 1);
    assert forall|i: int, j: int| 0 <= i < j < ins.len() implies (#[trigger] ins[i]).1 >= (
    #[trigger] ins[j]).1 by {
        if i < pos && j > pos {
            assert(ins[i] == old_best[i]);
            assert(ins[j] == old_best[j - 1]);
        }
    }
    assert forall|i: int, j: int|
        0 <= i < j < ins.len() && (#[trigger] ins[i]).1 == (#[trigger] ins[j]).1 implies ins[i].0
        < ins[j].0 by {
        if j == pos {
            assert(ins[i] == old_best[i]);
            assert(old_best[i].0 < bin);
        } else if i == pos {
            assert(ins[j] == old_best[j - 1]);
            assert(old_best[j - 1].1 < key);
        } else if i < pos && j > pos {
            assert(ins[i] == old_best[i]);
            assert(ins[j] == old_best[j - 1]);
        }
    }
    assert forall|b: int| holds_bin(old_best, b) || b == bin as int implies holds_bin(ins, b) by {
        if b == bin as int {
            assert(((ins[pos]).0 as int) == b);
        } else {
            let i = choose|i: int|
                0 <= i < old_best.len() && ((#[trigger] old_best[i]).0 as int) == b;
            if i < pos {
                assert(((ins[i]).0 as int) == b);
            } else {
                assert(((ins[i + 1]).0 as int) == b);
            }
        }
    }
    if old_best.len() < (PEAKS_PER_BAND as int) {
        assert(fin == ins);
        assert forall|b: int|
            lo <= b < bin as int + 1 && #[trigger] is_candidate(sv, floor, b) && !holds_bin(
                fin,
                b,
            ) implies false by {
            if b == bin as int {
                assert(holds_bin(ins, b));
            } else if holds_bin(old_best, b) {
                assert(holds_bin(ins, b));
            } else {
                assert(old_best.len() == (PEAKS_PER_BAND as int));
            }
        }
    } else {
        assert(old_best.len() == (PEAKS_PER_BAND as int));
        assert(fin == ins.subrange(0, PEAKS_PER_BAND as int));
        assert(fin.len() == (PEAKS_PER_BAND as int));
        assert forall|i: int| 0 <= i < fin.len() implies fin[i] == ins[i] by {}
        assert forall|b: int|
            lo <= b < bin as int + 1 && #[trigger] is_candidate(sv, floor, b) && !holds_bin(
                fin,
                b,
            ) implies (forall|i: int|
            0 <= i < fin.len() ==> sv[b] < (#[trigger] fin[i]).1 || (sv[b] == fin[i].1 && b
                > fin[i].0 as int)) by {
            if b == bin as int {
                if pos < (PEAKS_PER_BAND as int) {
                    assert(((fin[pos]).0 as int) == b);
                    assert(holds_bin(fin, b));
                } else {
                    assert(sv[b] == key);
                    assert forall|i: int| 0 <= i < fin.len() implies sv[b] < (#[trigger] fin[i]).1
                        || (sv[b] == fin[i].1 && b > fin[i].0 as int) by {
                        assert(fin[i] == old_best[i]);
                        assert(old_best[i].1 >= key);
                        assert(old_best[i].0 < bin);
                    }
                }
            } else if holds_bin(old_best, b) {
                let io = choose|io: int|
                    0 <= io < old_best.len() && ((#[trigger] old_best[io]).0 as int) == b;
                let ii = if io < pos {
                    io
                } else {
                    io + 1
                };
                assert(((ins[ii]).0 as int) == b);
                if ii < (PEAKS_PER_BAND as int) {
                    assert(((fin[ii]).0 as int) == b);
                    assert(holds_bin(fin, b));
                } else {
                    assert(ins[ii].1 == sv[b]);
                    assert forall|i: int| 0 <= i < fin.len() implies sv[b] < (#[trigger] fin[i]).1
                        || (sv[b] == fin[i].1 && b > fin[i].0 as int) by {
                        assert(ins[i].1 >= ins[ii].1);
                        if ins[i].1 == ins[ii].1 {
                            assert(ins[i].0 < ins[ii].0);
                        }
                    }
                }
            } else {
                assert forall|i: int| 0 <= i < fin.len() implies sv[b] < (#[trigger] fin[i]).1 || (
                sv[b] == fin[i].1 && b > fin[i].0 as int) by {
                    if i == pos && pos < ins.len() - 1 {
                        assert(fin[i] == (bin, key));
                        assert(old_best[4].1 <= old_best[pos].1);
                        assert(old_best[pos].1 < key);
                        assert(sv[b] < old_best[4].1 || sv[b] == old_best[4].1);
                    } else if i < pos {
                        assert(fin[i] == old_best[i]);
                    } else {
                        assert(fin[i] == old_best[i - 1]);
                    }
                }
            }
        }
    }
}

/// Selects the strongest candidate peaks of the band `[lo, hi)`: at most
/// `PEAKS_PER_BAND` bins, in descending strength order with stable ties,
/// every candidate left out ranking below every bin kept.
#[verifier::loop_isolation(false)]
#[verifier::rlimit(50)]
pub fn pick_band(s: &Vec<u64>, floor: u64, lo: usize, hi: usize) -> (r: Vec<usize>)
    requires
        lo < hi,
        hi < s@.len(),
    ensures
        is_band_pick(s@, floor, lo as int, hi as int, r@),
{
    let ghost sv = s@;
    let mut best: Vec<(usize, u64)> = Vec::new();
    let start = if lo == 0 {
        1
    } else {
        lo
    };
    proof {
        if lo == 0 {
            assert(candidate_count(sv, floor, 0, 0) == 0);
            assert(!is_candidate(sv, floor, 0));
        }
        assert(candidate_count(sv, floor, lo as int, start as int) == 0);
    }
    let mut bin = start;
    while bin < hi
        invariant
            start <= bin <= hi,
            best_inv(sv, floor, lo as int, bin as int, best@),
        decreases hi - bin,
    {
        let key = s[bin];
        let is_peak = key > s[bin - 1] && key > s[bin + 1] && key > floor;
        assert(is_peak == is_candidate(sv, floor, bin as int));
        if is_peak {
            let ghost old_best = best@;
            let mut pos: usize = 0;
            while pos < best.len() && best[pos].1 >= key
                invariant
                    pos <= best@.len(),
                    best@ == old_best,
                    forall|i: int| 0 <= i < pos ==> (#[trigger] best@[i]).1 >= key,
                decreases best@.len() - pos,
            {
                pos = pos + 1;
            }
            assert(pos as int == old_best.len() || old_best[pos as int].1 < key);
            best.insert(pos, (bin, key));
            if best.len() > PEAKS_PER_BAND {
                best.pop();
                assert(best@ == old_best.insert(pos as int, (bin, key)).subrange(
                    0,
                    PEAKS_PER_BAND as int,
                ));
            }
            proof {
                lemma_best_step(sv, floor, lo as int, bin, pos as int, old_best, best@);
            }
        } else {
            proof {
                lemma_best_skip(sv, floor, lo as int, bin as int, best@);
            }
        }
        bin = bin + 1;
    }
    let mut r: Vec<usize> = Vec::new();
    let mut idx: usize = 0;
    while idx < best.len()
        invariant
            idx <= best@.len(),
            r@.len() == idx as int,
            forall|i: int| 0 <= i < idx ==> (#[trigger] r@[i]) == best@[i].0,
        decreases best@.len() - idx,
    {
        let pair = best[idx];
        r.push(pair.0);
        idx = idx + 1;
    }
    proof {
        assert forall|b: int|
            lo <= b < hi && #[trigger] is_candidate(sv, floor, b) && !r@.contains(
                b as usize,
            ) implies r@.len() == (PEAKS_PER_BAND as int) && (forall|i: int|
            0 <= i < r@.len() ==> ranks_below(sv, b, r@, i)) by {
            if holds_bin(best@, b) {
                let i = choose|i: int| 0 <= i < best@.len() && ((best@[i]).0 as int) == b;
                assert(r@[i] == best@[i].0);
                assert(r@.contains(b as usize));
            }
            assert(!holds_bin(best@, b));
            assert forall|i: int| 0 <= i < r@.len() implies ranks_below(sv, b, r@, i) by {
                assert(sv[b] < best@[i].1 || (sv[b] == best@[i].1 && b > best@[i].0 as int));
                assert(best@[i].1 == sv[r@[i] as int]);
            }
        }
    }
    r
}

/// Helper for `lemma_band_pick_unique`: two band picks that agree on their
/// first `k` entries agree everywhere.
proof fn lemma_band_pick_unique_from(
    s: Seq<u64>,
    floor: u64,
    lo: int,
    hi: int,
    p1: Seq<usize>,
    p2: Seq<usize>,
    k: int,
)
    requires
        is_band_pick(s, floor, lo, hi, p1),
        is_band_pick(s, floor, lo, hi, p2),
        0 <= k <= p1.len(),
        p1.subrange(0, k) == p2.subrange(0, k),
    ensures
        p1 == p2,
    decreases p1.len() - k,
{
    assert(p1.len() == p2.len());
    if k == p1.len() {
        assert(p1 =~= p2) by {
            assert forall|m: int| 0 <= m < p1.len() implies p1[m] == p2[m] by {
                assert(p1.subrange(0, k)[m] == p1[m]);
                assert(p2.subrange(0, k)[m] == p2[m]);
            }
        }
    } else {
        let a = p1[k];
        let b = p2[k];
        if a == b {
            assert(p1.subrange(0, k + 1) =~= p2.subrange(0, k + 1)) by {
                assert forall|m: int| 0 <= m < k + 1 implies p1[m] == p2[m] by {
                    if m < k {
                        assert(p1.subrange(0, k)[m] == p1[m]);
                        assert(p2.subrange(0, k)[m] == p2[m]);
                    }
                }
            }
            lemma_band_pick_unique_from(s, floor, lo, hi, p1, p2, k + 1);
        } else {
            // `a` ranks strictly below `b` ...
            assert(s[a as int] < s[b as int] || (s[a as int] == s[b as int] && a > b)) by {
                if p2.contains(a) {
                    let j = choose|j: int| 0 <= j < p2.len() && p2[j] == a;
                    if j < k {
                        assert(p1.subrange(0, k)[j] == p1[j]);
                        assert(p2.subrange(0, k)[j] == p2[j]);
                        assert(p1[j] == p1[k]);
                        assert(false);
                    }
                    assert(j > k);
                } else {
                    assert(ranks_below(s, a as int, p2, k));
                }
            }
            // ... and `b` ranks strictly below `a`: impossible.
            assert(s[b as int] < s[a as int] || (s[b as int] == s[a as int] && b > a)) by {
                if p1.contains(b) {
                    let j = choose|j: int| 0 <= j < p1.len() && p1[j] == b;
                    if j < k {
                        assert(p1.subrange(0, k)[j] == p1[j]);
                        assert(p2.subrange(0, k)[j] == p2[j]);
                        assert(p2[j] == p2[k]);
                        assert(false);
                    }
                    assert(j > k);
                } else {
                    assert(ranks_below(s, b as int, p1, k));
                }
            }
            assert(false);
        }
    }
}

/// The band pick is unique: any two sequences satisfying `is_band_pick`
/// for the same strengths, floor and band are equal. Together with
/// `is_band_pick` itself this makes the selection a function of the frame's
/// strengths alone.
pub proof fn lemma_band_pick_unique(
    s: Seq<u64>,
    floor: u64,
    lo: int,
    hi: int,
    p1: Seq<usize>,
    p2: Seq<usize>,
)
    requires
        is_band_pick(s, floor, lo, hi, p1),
        is_band_pick(s, floor, lo, hi, p2),
    ensures
        p1 == p2,
{
    assert(p1.subrange(0, 0) =~= p2.subrange(0, 0));
    lemma_band_pick_unique_from(s, floor, lo, hi, p1, p2, 0);
}

/// `p` is the frame's peak set for strengths `s` and the given floor: the
/// band-major concatenation of the three band picks.
pub open spec fn is_frame_pick(s: Seq<u64>, floor: u64, p: Seq<usize>) -> bool {
    let l0 = vstd::math::min(
        PEAKS_PER_BAND as int,
        candidate_count(s, floor, BAND_LOW_START as int, BAND_MID_START as int),
    );
    let l1 = vstd::math::min(
        PEAKS_PER_BAND as int,
        candidate_count(s, floor, BAND_MID_START as int, BAND_HIGH_START as int),
    );
    let l2 = vstd::math::min(
        PEAKS_PER_BAND as int,
        candidate_count(s, floor, BAND_HIGH_START as int, BAND_END as int),
    );
    &&& p.len() == l0 + l1 + l2
    &&& is_band_pick(s, floor, BAND_LOW_START as int, BAND_MID_START as int, p.subrange(0, l0))
    &&& is_band_pick(
        s,
        floor,
        BAND_MID_START as int,
        BAND_HIGH_START as int,
        p.subrange(l0, l0 + l1),
    )
    &&& is_band_pick(
        s,
        floor,
        BAND_HIGH_START as int,
        BAND_END as int,
        p.subrange(l0 + l1, l0 + l1 + l2),
    )
}

/// The frame pick is unique: any two sequences satisfying `is_frame_pick`
/// for the same strengths and floor are equal, so a frame's peak set is a
/// function of its strengths alone.
pub proof fn lemma_frame_pick_unique(s: Seq<u64>, floor: u64, p1: Seq<usize>, p2: Seq<usize>)
    requires
        is_frame_pick(s, floor, p1),
        is_frame_pick(s, floor, p2),
    ensures
        p1 == p2,
{
    let l0 = vstd::math::min(
        PEAKS_PER_BAND as int,
        candidate_count(s, floor, BAND_LOW_START as int, BAND_MID_START as int),
    );
    let l1 = vstd::math::min(
        PEAKS_PER_BAND as int,
        candidate_count(s, floor, BAND_MID_START as int, BAND_HIGH_START as int),
    );
    let l2 = vstd::math::min(
        PEAKS_PER_BAND as int,
        candidate_count(s, floor, BAND_HIGH_START as int, BAND_END as int),
    );
    lemma_band_pick_unique(
        s,
        floor,
        BAND_LOW_START as int,
        BAND_MID_START as int,
        p1.subrange(0, l0),
        p2.subrange(0, l0),
    );
    lemma_band_pick_unique(
        s,
        floor,
        BAND_MID_START as int,
        BAND_HIGH_START as int,
        p1.subrange(l0, l0 + l1),
        p2.subrange(l0, l0 + l1),
    );
    lemma_band_pick_unique(
        s,
        floor,
        BAND_HIGH_START as int,
        BAND_END as int,
        p1.subrange(l0 + l1, l0 + l1 + l2),
        p2.subrange(l0 + l1, l0 + l1 + l2),
    );
    assert(p1 =~= p2) by {
        assert forall|m: int| 0 <= m < p1.len() implies p1[m] == p2[m] by {
            if m < l0 {
                assert(p1.subrange(0, l0)[m] == p1[m]);
                assert(p2.subrange(0, l0)[m] == p2[m]);
            } else if m < l0 + l1 {
                assert(p1.subrange(l0, l0 + l1)[m - l0] == p1[m]);
                assert(p2.subrange(l0, l0 + l1)[m - l0] == p2[m]);
            } else {
                assert(p1.subrange(l0 + l1, l0 + l1 + l2)[m - l0 - l1] == p1[m]);
                assert(p2.subrange(l0 + l1, l0 + l1 + l2)[m - l0 - l1] == p2[m]);
            }
        }
    }
}

/// Selects the frame's peak set: up to `PEAKS_PER_BAND` strongest candidate
/// bins from each of the three bands, band-major, descending strength with
/// stable ties within each band. At most fifteen bins, all inside
/// `(0, BAND_END)`.
pub fn pick_peaks(s: &Vec<u64>, floor: u64) -> (r: Vec<usize>)
    requires
        s@.len() == WINDOW_SIZE,
    ensures
        is_frame_pick(s@, floor, r@),
        r@.len() <= 3 * (PEAKS_PER_BAND as int),
        forall|i: int| 0 <= i < r@.len() ==> 0 < (#[trigger] r@[i]) < BAND_END,
{
    let mut r = pick_band(s, floor, BAND_LOW_START, BAND_MID_START);
    let ghost g0 = r@;
    let mut p1 = pick_band(s, floor, BAND_MID_START, BAND_HIGH_START);
    let ghost g1 = p1@;
    let mut p2 = pick_band(s, floor, BAND_HIGH_START, BAND_END);
    let ghost g2 = p2@;
    r.append(&mut p1);
    r.append(&mut p2);
    proof {
        assert(r@ == g0 + g1 + g2);
        assert(g0 =~= r@.subrange(0, g0.len() as int));
        assert(g1 =~= r@.subrange(g0.len() as int, g0.len() as int + g1.len() as int));
        assert(g2 =~= r@.subrange(
            g0.len() as int + g1.len() as int,
            g0.len() as int + g1.len() as int + g2.len() as int,
        ));
    }
    r
}

} // verus!
