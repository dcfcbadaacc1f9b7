use mixid_core::fingerprint::{frame_peaks, pair_peaks, Fingerprint};

fn hash(f1: u32, f2: u32, dt: u32) -> u32 {
    (f1 << 17) | (f2 << 7) | dt
}

#[test]
fn default_fingerprint_is_empty() {
    assert!(Fingerprint::default().hashes.is_empty());
}

fn spectrum(peaks: &[(usize, u32)]) -> Vec<u32> {
    let mut mags = vec![0u32; 1024];
    for &(k, m) in peaks {
        mags[k] = m;
    }
    mags
}

#[test]
fn strongest_peak_of_each_band() {
    // bins 12 and 20 share the first band [9, 30); 40 is in [30, 60);
    // bins 3 and 500 lie outside every band
    let mags = spectrum(&[(3, 9), (12, 5), (20, 7), (40, 3), (500, 50)]);
    assert_eq!(frame_peaks(&mags, 0), vec![20, 40]);
}

#[test]
fn gate_drops_weak_peaks() {
    let mags = spectrum(&[(12, 5), (20, 7), (40, 3)]);
    assert_eq!(frame_peaks(&mags, 4), vec![20]);
    assert_eq!(frame_peaks(&mags, 7), vec![20]);
    assert_eq!(frame_peaks(&mags, 8), vec![]);
}

#[test]
fn ties_prefer_lower_bin_and_plateaus_count_once() {
    let mags = spectrum(&[(12, 7), (20, 7)]);
    assert_eq!(frame_peaks(&mags, 0), vec![12]);
    // a plateau of two equal bins: only the right-hand one is a maximum
    // (ties with a lower neighbour allowed, not with a higher one)
    let plateau = spectrum(&[(70, 4), (71, 4)]);
    assert_eq!(frame_peaks(&plateau, 0), vec![71]);
}

#[test]
fn neighbours_across_a_band_edge_count() {
    // bin 29 is the last of the first band, but bin 31 beside it is higher
    let mags = spectrum(&[(29, 5), (31, 9)]);
    assert_eq!(frame_peaks(&mags, 0), vec![31]);
}

#[test]
fn short_spectra_lose_their_edge_bins() {
    let mut mags = vec![0u32; 100];
    mags[98] = 9;
    mags[50] = 1;
    assert_eq!(frame_peaks(&mags, 0), vec![50]);
    assert!(frame_peaks(&vec![], 0).is_empty());
}

#[test]
fn one_peak_per_band_at_most_five() {
    let mags = spectrum(&[
        (10, 1), (25, 2), (35, 3), (55, 4), (65, 5), (100, 6), (130, 7), (200, 8), (240, 9),
        (463, 10), (470, 99),
    ]);
    assert_eq!(frame_peaks(&mags, 0), vec![25, 55, 100, 200, 463]);
}

#[test]
fn pairs_respect_spread_and_self_pair_ban() {
    let peaks = vec![(0, 10), (2, 20), (3, 30), (4, 20)];
    let fp = pair_peaks(&peaks);
    assert_eq!(fp.hashes, vec![(hash(10, 20, 2), 0), (hash(10, 20, 4), 0)]);
    assert_eq!(hash(10, 20, 2), 1313282);
}

#[test]
fn fanout_caps_targets_per_anchor() {
    let peaks: Vec<(u32, u32)> = (0..8).map(|i| (2 * i, 100 + i)).collect();
    let fp = pair_peaks(&peaks);
    let from_first: Vec<_> = fp.hashes.iter().filter(|&&(_, t)| t == 0).collect();
    assert_eq!(from_first.len(), 5);
    assert_eq!(*from_first[0], (hash(100, 101, 2), 0));
    assert_eq!(*from_first[4], (hash(100, 105, 10), 0));
}

#[test]
fn targets_beyond_max_dt_are_not_paired() {
    let peaks = vec![(0, 1), (127, 2), (128, 3)];
    let fp = pair_peaks(&peaks);
    assert_eq!(fp.hashes, vec![(hash(1, 2, 127), 0)]);
    assert!(pair_peaks(&vec![]).hashes.is_empty());
}

#[test]
fn hash_decodes_back_to_bins_and_distance() {
    let h = hash(1023, 511, 127);
    assert_eq!(h >> 17, 1023);
    assert_eq!((h >> 7) & 0x3ff, 511);
    assert_eq!(h & 0x7f, 127);
}
