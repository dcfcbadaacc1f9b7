//! Constellation fingerprinting, integer part: picking each STFT frame's
//! peaks band by band (the strongest local maximum in each of five
//! frequency bands), and pairing peaks into anchor/target hashes
//! (Shazam-style).
//!
//! Spectral magnitudes reach this module as order-preserving integer keys
//! (for the non-negative magnitudes of a power spectrum, the IEEE-754 bit
//! pattern orders exactly as the value does), so every comparison the peak
//! picker makes is the comparison of the magnitudes themselves.

use vstd::prelude::*;

verus! {

/// Peak must be a local maximum over ±NEIGHBORHOOD bins.
pub const NEIGHBORHOOD: usize = 2;

/// Number of frequency bands; each yields at most one peak per frame.
pub const N_BANDS: usize = 5;

/// Anchor pairs with up to FANOUT later peaks.
pub const FANOUT: usize = 5;

/// Smallest frame distance between an anchor and its target.
pub const MIN_DT: u32 = 2;

/// Largest frame distance between an anchor and its target.
pub const MAX_DT: u32 = 127;

/// A fingerprint: (hash, anchor frame index) pairs.
#[derive(Clone, Debug)]
pub struct Fingerprint {
    pub hashes: Vec<(u32, u32)>,
}

impl Default for Fingerprint {
    fn default() -> (fp: Self)
        ensures
            fp.hashes@ == Seq::<(u32, u32)>::empty(),
    {
        Fingerprint { hashes: Vec::new() }
    }
}

/// Bin `k` is a peak of the frame: a local maximum over ±2 bins (ties with a
/// lower neighbour allowed, not with a higher one), at or above the energy
/// gate, with both neighbours on either side inside the spectrum.
pub open spec fn is_peak(mags: Seq<u32>, gate: u32, k: int) -> bool {
    &&& 2 <= k
    &&& k + 2 < mags.len()
    &&& mags[k] >= gate
    &&& mags[k] >= mags[k - 1]
    &&& mags[k] >= mags[k - 2]
    &&& mags[k] > mags[k + 1]
    &&& mags[k] > mags[k + 2]
}

/// Bin `a` ranks before bin `b`: stronger magnitude first, then lower bin.
pub open spec fn stronger(mags: Seq<u32>, a: int, b: int) -> bool {
    mags[a] > mags[b] || (mags[a] == mags[b] && a < b)
}

/// First bin of frequency band `b`: the bands `[9, 30)`, `[30, 60)`,
/// `[60, 120)`, `[120, 238)` and `[238, 464)` split about 100..5000 Hz
/// logarithmically.
pub open spec fn band_lo(b: int) -> int {
    if b == 0 {
        9
    } else if b == 1 {
        30
    } else if b == 2 {
        60
    } else if b == 3 {
        120
    } else {
        238
    }
}

/// End (exclusive) of frequency band `b`.
pub open spec fn band_hi(b: int) -> int {
    if b == 0 {
        30
    } else if b == 1 {
        60
    } else if b == 2 {
        120
    } else if b == 3 {
        238
    } else {
        464
    }
}

/// Bin `k` lies in band `b`.
pub open spec fn in_band(b: int, k: int) -> bool {
    band_lo(b) <= k < band_hi(b)
}

/// Bin `k` is the peak of band `b`: the highest-ranked peak among the band's
/// bins.
pub open spec fn band_peak(mags: Seq<u32>, gate: u32, b: int, k: int) -> bool {
    &&& in_band(b, k)
    &&& is_peak(mags, gate, k)
    &&& forall|j: int|
        #![trigger is_peak(mags, gate, j)]
        in_band(b, j) && is_peak(mags, gate, j) && j != k ==> stronger(mags, k, j)
}

/// Band `b` holds a peak.
pub open spec fn has_band_peak(mags: Seq<u32>, gate: u32, b: int) -> bool {
    exists|k: int| #[trigger] band_peak(mags, gate, b, k)
}

/// The peaks of the first `n` bands, band by band; a band without any peak
/// contributes nothing.
pub open spec fn band_peaks(mags: Seq<u32>, gate: u32, n: int) -> Seq<u32>
    decreases n,
{
    if n <= 0 {
        Seq::<u32>::empty()
    } else if has_band_peak(mags, gate, n - 1) {
        band_peaks(mags, gate, n - 1).push(
            (choose|k: int| #[trigger] band_peak(mags, gate, n - 1, k)) as u32,
        )
    } else {
        band_peaks(mags, gate, n - 1)
    }
}

/// A band has at most one peak.
pub proof fn lemma_band_peak_unique(mags: Seq<u32>, gate: u32, b: int, k1: int, k2: int)
    requires
        band_peak(mags, gate, b, k1),
        band_peak(mags, gate, b, k2),
    ensures
        k1 == k2,
{
    if k1 != k2 {
        assert(stronger(mags, k1, k2));
        assert(stronger(mags, k2, k1));
    }
}

/// The limits `[lo, hi)` of band `b`.
pub fn band_limits(b: usize) -> (r: (usize, usize))
    requires
        b < N_BANDS,
    ensures
        r.0 == band_lo(b as int),
        r.1 == band_hi(b as int),
{
    if b == 0 {
        (9, 30)
    } else if b == 1 {
        (30, 60)
    } else if b == 2 {
        (60, 120)
    } else if b == 3 {
        (120, 238)
    } else {
        (238, 464)
    }
}

/// The peak of band `b`, if it has one.
fn strongest_in_band(mags: &Vec<u32>, gate: u32, b: usize) -> (res: Option<usize>)
    requires
        b < N_BANDS,
    ensures
        match res {
            Some(k) => band_peak(mags@, gate, b as int, k as int),
            None => !has_band_peak(mags@, gate, b as int),
        },
{
    let n = mags.len();
    let (lo, hi) = band_limits(b);
    let mut best: Option<usize> = None;
    let mut k = lo;
    while k < hi
        invariant
            lo == band_lo(b as int),
            hi == band_hi(b as int),
            lo <= k <= hi,
            hi <= 464,
            n == mags.len(),
            match best {
                Some(x) => {
                    &&& lo <= x < k
                    &&& is_peak(mags@, gate, x as int)
                    &&& forall|j: int|
                        #![trigger is_peak(mags@, gate, j)]
                        lo <= j < k && is_peak(mags@, gate, j) && j != x ==> stronger(
                            mags@,
                            x as int,
                            j,
                        )
                },
                None => forall|j: int| #![trigger is_peak(mags@, gate, j)] lo <= j < k ==> !is_peak(mags@, gate, j),
            },
        decreases hi - k,
    {
        if k + 2 < n {
            let m = mags[k];
            if m >= gate && m >= mags[k - 1] && m >= mags[k - 2] && m > mags[k + 1] && m > mags[k
                + 2] {
                match best {
                    None => {
                        best = Some(k);
                    },
                    Some(x) => {
                        if m > mags[x] {
                            best = Some(k);
                        }
                    },
                }
            }
        }
        k = k + 1;
    }
    proof {
        match best {
            Some(x) => {
                assert(band_peak(mags@, gate, b as int, x as int));
            },
            None => {
                if has_band_peak(mags@, gate, b as int) {
                    let w = choose|w: int| #[trigger] band_peak(mags@, gate, b as int, w);
                    assert(is_peak(mags@, gate, w));
                }
            },
        }
    }
    best
}

/// The peaks of one STFT frame: in each frequency band, the strongest local
/// maximum at or above the energy gate (ties to the lower bin), band by
/// band. `mags` are the frame's magnitude keys by bin, `gate` the key of the
/// energy gate.
pub fn frame_peaks(mags: &Vec<u32>, gate: u32) -> (r: Vec<u32>)
    ensures
        r@ == band_peaks(mags@, gate, N_BANDS as int),
{
    let mut r: Vec<u32> = Vec::new();
    let mut b: usize = 0;
    while b < N_BANDS
        invariant
            b <= N_BANDS,
            r@ == band_peaks(mags@, gate, b as int),
        decreases N_BANDS - b,
    {
        match strongest_in_band(mags, gate, b) {
            Some(k) => {
                proof {
                    let c = choose|c: int| #[trigger] band_peak(mags@, gate, b as int, c);
                    lemma_band_peak_unique(mags@, gate, b as int, c, k as int);
                }
                r.push(k as u32);
            },
            None => {},
        }
        b = b + 1;
    }
    r
}

/// A frame yields at most one peak per band, so at most `N_BANDS` peaks, in
/// ascending bin order; every one is a peak lying in the band range
/// `[9, 464)`.
pub proof fn lemma_frame_peaks_in_bands(mags: Seq<u32>, gate: u32, n: int)
    requires
        0 <= n <= N_BANDS,
    ensures
        band_peaks(mags, gate, n).len() <= n,
        forall|q: int|
            0 <= q < band_peaks(mags, gate, n).len() ==> 9 <= #[trigger] band_peaks(mags, gate, n)[q]
                < band_hi(n - 1) && is_peak(mags, gate, band_peaks(mags, gate, n)[q] as int),
        forall|p: int, q: int|
            0 <= p < q < band_peaks(mags, gate, n).len() ==> #[trigger] band_peaks(mags, gate, n)[p]
                < #[trigger] band_peaks(mags, gate, n)[q],
    decreases n,
{
    if n > 0 {
        lemma_frame_peaks_in_bands(mags, gate, n - 1);
        let prev = band_peaks(mags, gate, n - 1);
        let cur = band_peaks(mags, gate, n);
        if has_band_peak(mags, gate, n - 1) {
            let c = choose|c: int| #[trigger] band_peak(mags, gate, n - 1, c);
            assert(cur == prev.push(c as u32));
            assert forall|q: int| 0 <= q < cur.len() implies 9 <= #[trigger] cur[q] < band_hi(n - 1)
                && is_peak(mags, gate, cur[q] as int) by {
                if q < prev.len() {
                    assert(cur[q] == prev[q]);
                }
            }
            assert forall|p: int, q: int| 0 <= p < q < cur.len() implies #[trigger] cur[p]
                < #[trigger] cur[q] by {
                if q < prev.len() {
                    assert(cur[p] == prev[p] && cur[q] == prev[q]);
                } else {
                    assert(cur[p] == prev[p]);
                }
            }
        } else {
            assert forall|q: int| 0 <= q < cur.len() implies 9 <= #[trigger] cur[q] < band_hi(n - 1)
                && is_peak(mags, gate, cur[q] as int) by {
                assert(cur[q] == prev[q]);
            }
        }
    }
}

/// The hash of an anchor at bin `f1` paired with a target at bin `f2`,
/// `dt` frames later: `(f1 << 17) | (f2 << 7) | dt`.
pub open spec fn pair_hash(f1: u32, f2: u32, dt: u32) -> u32 {
    (f1 << 17u32) | (f2 << 7u32) | dt
}

/// The hashes anchored at peak `i`, choosing targets among peaks `j..`:
/// targets within `MAX_DT` frames, at least `MIN_DT` frames on, on another
/// bin, at least two frames after the previous target, at most `FANOUT`.
pub open spec fn anchor_hashes(
    peaks: Seq<(u32, u32)>,
    i: int,
    j: int,
    taken: nat,
    last_dt: int,
) -> Seq<(u32, u32)>
    decreases peaks.len() - j,
{
    if j < 0 || j >= peaks.len() || taken >= FANOUT {
        Seq::<(u32, u32)>::empty()
    } else {
        let t1 = peaks[i].0;
        let f1 = peaks[i].1;
        let t2 = peaks[j].0;
        let f2 = peaks[j].1;
        let dt = t2 - t1;
        if dt > MAX_DT {
            Seq::<(u32, u32)>::empty()
        } else if dt < MIN_DT || f1 == f2 || dt < last_dt + 2 {
            anchor_hashes(peaks, i, j + 1, taken, last_dt)
        } else {
            seq![(pair_hash(f1, f2, dt as u32), t1)] + anchor_hashes(peaks, i, j + 1, taken + 1, dt)
        }
    }
}

/// All hashes anchored at the first `n` peaks, anchor by anchor.
pub open spec fn peak_hashes(peaks: Seq<(u32, u32)>, n: int) -> Seq<(u32, u32)>
    decreases n,
{
    if n <= 0 {
        Seq::<(u32, u32)>::empty()
    } else {
        peak_hashes(peaks, n - 1) + anchor_hashes(peaks, n - 1, n, 0, 0)
    }
}

/// Peaks are in frame order.
pub open spec fn frames_ordered(peaks: Seq<(u32, u32)>) -> bool {
    forall|a: int, b: int| 0 <= a < b < peaks.len() ==> #[trigger] peaks[a].0 <= #[trigger] peaks[b].0
}

/// Anchor/target pairing of a frame-ordered list of `(frame, bin)` peaks.
pub fn pair_peaks(peaks: &Vec<(u32, u32)>) -> (fp: Fingerprint)
    requires
        frames_ordered(peaks@),
    ensures
        fp.hashes@ == peak_hashes(peaks@, peaks.len() as int),
{
    let n = peaks.len();
    let mut hashes: Vec<(u32, u32)> = Vec::new();
    let mut i: usize = 0;
    while i < n
        invariant
            i <= n == peaks.len(),
            frames_ordered(peaks@),
            hashes@ == peak_hashes(peaks@, i as int),
        decreases n - i,
    {
        let (t1, f1) = peaks[i];
        let ghost start = hashes@;
        let mut taken: usize = 0;
        let mut last_dt: u32 = 0;
        let mut j = i + 1;
        while j < n
            invariant_except_break
                i < j <= n,
                taken < FANOUT,
                last_dt <= MAX_DT,
                (t1, f1) == peaks@[i as int],
                frames_ordered(peaks@),
                n == peaks.len(),
                start + anchor_hashes(peaks@, i as int, i + 1, 0, 0) == hashes@ + anchor_hashes(
                    peaks@,
                    i as int,
                    j as int,
                    taken as nat,
                    last_dt as int,
                ),
            ensures
                start + anchor_hashes(peaks@, i as int, i + 1, 0, 0) == hashes@,
            decreases n - j,
        {
            let (t2, f2) = peaks[j];
            assert(peaks@[i as int].0 <= peaks@[j as int].0);
            let dt = t2 - t1;
            if dt > MAX_DT {
                break;
            }
            if dt < MIN_DT || f1 == f2 || dt < last_dt + 2 {
                j = j + 1;
                continue;
            }
            last_dt = dt;
            let ghost before = hashes@;
            hashes.push(((f1 << 17u32) | (f2 << 7u32) | dt, t1));
            assert(hashes@ == before + seq![(pair_hash(f1, f2, dt), t1)]);
            taken = taken + 1;
            j = j + 1;
            if taken >= FANOUT {
                assert(anchor_hashes(peaks@, i as int, j as int, taken as nat, last_dt as int)
                    =~= Seq::<(u32, u32)>::empty());
                assert(hashes@ + Seq::<(u32, u32)>::empty() =~= hashes@);
                break;
            }
        }
        proof {
            if j >= n {
                assert(hashes@ + Seq::<(u32, u32)>::empty() =~= hashes@);
            }
        }
        i = i + 1;
    }
    Fingerprint { hashes }
}

/// The packing of a pair hash is lossless: for bins below 1024 and frame
/// distances below 128, the hash gives back both bins and the distance.
pub proof fn lemma_pair_hash_decodes(f1: u32, f2: u32, dt: u32)
    requires
        f1 < 1024,
        f2 < 1024,
        dt < 128,
    ensures
        pair_hash(f1, f2, dt) >> 17u32 == f1,
        (pair_hash(f1, f2, dt) >> 7u32) & 0x3ffu32 == f2,
        pair_hash(f1, f2, dt) & 0x7fu32 == dt,
{
    assert(((f1 << 17u32) | (f2 << 7u32) | dt) >> 17u32 == f1) by (bit_vector)
        requires
            f1 < 1024u32,
            f2 < 1024u32,
            dt < 128u32,
    ;
    assert((((f1 << 17u32) | (f2 << 7u32) | dt) >> 7u32) & 0x3ffu32 == f2) by (bit_vector)
        requires
            f1 < 1024u32,
            f2 < 1024u32,
            dt < 128u32,
    ;
    assert(((f1 << 17u32) | (f2 << 7u32) | dt) & 0x7fu32 == dt) by (bit_vector)
        requires
            f1 < 1024u32,
            f2 < 1024u32,
            dt < 128u32,
    ;
}

/// Entry `e` pairs anchor peak `i` with a later target peak `j`: on another
/// bin, `MIN_DT..=MAX_DT` frames later, carrying the anchor's frame.
pub open spec fn pairs_anchor(peaks: Seq<(u32, u32)>, i: int, e: (u32, u32)) -> bool {
    exists|j: int|
        i < j < peaks.len() && #[trigger] peaks[j].1 != peaks[i].1 && MIN_DT <= peaks[j].0
            - peaks[i].0 <= MAX_DT && e == (
            pair_hash(peaks[i].1, peaks[j].1, (peaks[j].0 - peaks[i].0) as u32),
            peaks[i].0,
        )
}

proof fn lemma_anchor_hashes_shape(
    peaks: Seq<(u32, u32)>,
    i: int,
    j: int,
    taken: nat,
    last_dt: int,
)
    requires
        0 <= i < j,
        taken <= FANOUT,
    ensures
        anchor_hashes(peaks, i, j, taken, last_dt).len() + taken <= FANOUT,
        forall|q: int|
            0 <= q < anchor_hashes(peaks, i, j, taken, last_dt).len() ==> pairs_anchor(
                peaks,
                i,
                #[trigger] anchor_hashes(peaks, i, j, taken, last_dt)[q],
            ),
    decreases peaks.len() - j,
{
    if j < 0 || j >= peaks.len() || taken >= FANOUT {
    } else {
        let t1 = peaks[i].0;
        let f1 = peaks[i].1;
        let t2 = peaks[j].0;
        let f2 = peaks[j].1;
        let dt = t2 - t1;
        if dt > MAX_DT {
        } else if dt < MIN_DT || f1 == f2 || dt < last_dt + 2 {
            lemma_anchor_hashes_shape(peaks, i, j + 1, taken, last_dt);
        } else {
            lemma_anchor_hashes_shape(peaks, i, j + 1, taken + 1, dt);
            let rest = anchor_hashes(peaks, i, j + 1, taken + 1, dt);
            let all = anchor_hashes(peaks, i, j, taken, last_dt);
            assert(all == seq![(pair_hash(f1, f2, dt as u32), t1)] + rest);
            assert forall|q: int| 0 <= q < all.len() implies pairs_anchor(peaks, i, #[trigger] all[q]) by {
                if q == 0 {
                    assert(peaks[j].1 != peaks[i].1);
                } else {
                    assert(all[q] == rest[q - 1]);
                }
            }
        }
    }
}

/// Entry `e` pairs one of the first `n` peaks, as anchor, with a later peak.
pub open spec fn pairs_some_anchor(peaks: Seq<(u32, u32)>, n: int, e: (u32, u32)) -> bool {
    exists|i: int| 0 <= i < n && #[trigger] pairs_anchor(peaks, i, e)
}

/// Every fingerprint hash pairs an anchor peak with a later peak on another
/// bin, `MIN_DT..=MAX_DT` frames on, and carries the anchor's frame; no anchor
/// yields more than `FANOUT` hashes.
pub proof fn lemma_peak_hashes_shape(peaks: Seq<(u32, u32)>, n: int)
    requires
        0 <= n <= peaks.len(),
    ensures
        forall|q: int|
            0 <= q < peak_hashes(peaks, n).len() ==> pairs_some_anchor(
                peaks,
                n,
                #[trigger] peak_hashes(peaks, n)[q],
            ),
        forall|i: int|
            0 <= i < n ==> (#[trigger] anchor_hashes(peaks, i, i + 1, 0, 0)).len() <= FANOUT,
    decreases n,
{
    if n > 0 {
        lemma_peak_hashes_shape(peaks, n - 1);
        lemma_anchor_hashes_shape(peaks, n - 1, n, 0, 0);
        let prev = peak_hashes(peaks, n - 1);
        let mine = anchor_hashes(peaks, n - 1, n, 0, 0);
        let all = peak_hashes(peaks, n);
        assert(all == prev + mine);
        assert forall|q: int| 0 <= q < all.len() implies pairs_some_anchor(peaks, n, #[trigger] all[q]) by {
            if q < prev.len() {
                assert(all[q] == prev[q]);
                assert(pairs_some_anchor(peaks, n - 1, prev[q]));
                let i = choose|i: int| 0 <= i < n - 1 && #[trigger] pairs_anchor(peaks, i, prev[q]);
                assert(pairs_anchor(peaks, i, all[q]));
            } else {
                assert(all[q] == mine[q - prev.len()]);
                assert(pairs_anchor(peaks, n - 1, all[q]));
            }
        }
    }
}

/// When every peak lies in the band range `[9, 464)`, so do both bins packed
/// into every hash.
pub proof fn lemma_hash_bins_in_bands(peaks: Seq<(u32, u32)>)
    requires
        forall|i: int| 0 <= i < peaks.len() ==> 9 <= (#[trigger] peaks[i]).1 < 464,
    ensures
        forall|q: int|
            0 <= q < peak_hashes(peaks, peaks.len() as int).len() ==> 9 <= (#[trigger] peak_hashes(
                peaks,
                peaks.len() as int,
            )[q]).0 >> 17u32 < 464 && 9 <= (peak_hashes(peaks, peaks.len() as int)[q].0 >> 7u32)
                & 0x3ffu32 < 464,
{
    let n = peaks.len() as int;
    lemma_peak_hashes_shape(peaks, n);
    let ps = peak_hashes(peaks, n);
    assert forall|q: int| 0 <= q < ps.len() implies 9 <= (#[trigger] ps[q]).0 >> 17u32 < 464 && 9
        <= (ps[q].0 >> 7u32) & 0x3ffu32 < 464 by {
        let e = ps[q];
        assert(pairs_some_anchor(peaks, n, e));
        let i = choose|i: int| 0 <= i < n && #[trigger] pairs_anchor(peaks, i, e);
        let j = choose|j: int|
            i < j < peaks.len() && #[trigger] peaks[j].1 != peaks[i].1 && MIN_DT <= peaks[j].0
                - peaks[i].0 <= MAX_DT && e == (
                pair_hash(peaks[i].1, peaks[j].1, (peaks[j].0 - peaks[i].0) as u32),
                peaks[i].0,
            );
        assert(9 <= peaks[i].1 < 464);
        assert(9 <= peaks[j].1 < 464);
        lemma_pair_hash_decodes(peaks[i].1, peaks[j].1, (peaks[j].0 - peaks[i].0) as u32);
    }
}

/// The frame distance packed into the low 7 bits of a hash entry.
pub open spec fn hash_dt(e: (u32, u32)) -> u32 {
    e.0 & 0x7fu32
}

/// Frame distance `d` is covered by the anchor hashes `hs`: some target of
/// `hs` lies 0 or 1 frame before it.
pub open spec fn covered(hs: Seq<(u32, u32)>, d: int) -> bool {
    exists|q: int| 0 <= q < hs.len() && hash_dt(#[trigger] hs[q]) <= d <= hash_dt(hs[q]) + 1
}

proof fn lemma_hash_dt(f1: u32, f2: u32, dt: u32)
    requires
        dt < 128,
    ensures
        hash_dt((pair_hash(f1, f2, dt), 0u32)) == dt,
        forall|t: u32| #[trigger] hash_dt((pair_hash(f1, f2, dt), t)) == dt,
{
    assert(((f1 << 17u32) | (f2 << 7u32) | dt) & 0x7fu32 == dt) by (bit_vector)
        requires
            dt < 128u32,
    ;
}

proof fn lemma_anchor_covers(peaks: Seq<(u32, u32)>, i: int, j: int, taken: nat, last_dt: int)
    requires
        frames_ordered(peaks),
        0 <= i < j,
        i < peaks.len(),
        0 <= last_dt,
        anchor_hashes(peaks, i, j, taken, last_dt).len() + taken < FANOUT,
    ensures
        forall|k: int|
            j <= k < peaks.len() && MIN_DT <= peaks[k].0 - peaks[i].0 <= MAX_DT && (#[trigger] peaks[k]).1
                != peaks[i].1 ==> peaks[k].0 - peaks[i].0 <= last_dt + 1 || covered(
                anchor_hashes(peaks, i, j, taken, last_dt),
                peaks[k].0 - peaks[i].0,
            ),
    decreases peaks.len() - j,
{
    if j >= peaks.len() || taken >= FANOUT {
    } else {
        let t1 = peaks[i].0;
        let f1 = peaks[i].1;
        let t2 = peaks[j].0;
        let f2 = peaks[j].1;
        let dt = t2 - t1;
        let all = anchor_hashes(peaks, i, j, taken, last_dt);
        if dt > MAX_DT {
            assert forall|k: int|
                j <= k < peaks.len() && MIN_DT <= peaks[k].0 - peaks[i].0 <= MAX_DT && (#[trigger] peaks[k]).1
                    != peaks[i].1 implies peaks[k].0 - peaks[i].0 <= last_dt + 1 || covered(
                all,
                peaks[k].0 - peaks[i].0,
            ) by {
                if k > j {
                    assert(peaks[j].0 <= peaks[k].0);
                }
            }
        } else if dt < MIN_DT || f1 == f2 || dt < last_dt + 2 {
            lemma_anchor_covers(peaks, i, j + 1, taken, last_dt);
        } else {
            lemma_anchor_covers(peaks, i, j + 1, taken + 1, dt);
            let rest = anchor_hashes(peaks, i, j + 1, taken + 1, dt);
            let e = (pair_hash(f1, f2, dt as u32), t1);
            assert(all == seq![e] + rest);
            assert(peaks[i].0 <= peaks[j].0);
            lemma_hash_dt(f1, f2, dt as u32);
            assert(all[0] == e);
            assert(hash_dt(e) == dt);
            assert forall|k: int|
                j <= k < peaks.len() && MIN_DT <= peaks[k].0 - peaks[i].0 <= MAX_DT && (#[trigger] peaks[k]).1
                    != peaks[i].1 implies peaks[k].0 - peaks[i].0 <= last_dt + 1 || covered(
                all,
                peaks[k].0 - peaks[i].0,
            ) by {
                let d = peaks[k].0 - peaks[i].0;
                if k == j {
                    assert(hash_dt(all[0]) <= d <= hash_dt(all[0]) + 1);
                } else {
                    assert(peaks[j].0 <= peaks[k].0);
                    if d <= dt + 1 {
                        assert(hash_dt(all[0]) <= d <= hash_dt(all[0]) + 1);
                    } else {
                        assert(covered(rest, d));
                        let q = choose|q: int| 0 <= q < rest.len() && hash_dt(#[trigger] rest[q]) <= d <= hash_dt(rest[q]) + 1;
                        assert(all[q + 1] == rest[q]);
                        assert(hash_dt(all[q + 1]) <= d <= hash_dt(all[q + 1]) + 1);
                    }
                }
            }
        }
    }
}

/// An anchor's fan-out is used up only by the targets it pairs with: while
/// an anchor has fewer than `FANOUT` hashes, every later peak on another bin,
/// `MIN_DT..=MAX_DT` frames on, is paired with it or lies at most one frame
/// after a target it is paired with (the spread rule).
pub proof fn lemma_fanout_counts_only_pairs(peaks: Seq<(u32, u32)>, i: int)
    requires
        frames_ordered(peaks),
        0 <= i < peaks.len(),
    ensures
        anchor_hashes(peaks, i, i + 1, 0, 0).len() < FANOUT ==> forall|k: int|
            i < k < peaks.len() && MIN_DT <= peaks[k].0 - peaks[i].0 <= MAX_DT && (#[trigger] peaks[k]).1
                != peaks[i].1 ==> covered(anchor_hashes(peaks, i, i + 1, 0, 0), peaks[k].0 - peaks[i].0),
{
    if anchor_hashes(peaks, i, i + 1, 0, 0).len() < FANOUT {
        lemma_anchor_covers(peaks, i, i + 1, 0, 0);
    }
}

} // verus!
