use mixid_core::fingerprint::Fingerprint;
use mixid_core::matcher::{
    matched_pairs, mix_occurrences, offset_votes, reported_segments, split_runs, stride_sample,
    track_index, trim_run,
};

fn fp(hashes: Vec<(u32, u32)>) -> Fingerprint {
    Fingerprint { hashes }
}

#[test]
fn stride_sampling_keeps_eight_evenly() {
    let ts: Vec<u32> = (0..10).collect();
    assert_eq!(stride_sample(&ts), vec![0, 1, 2, 3, 5, 6, 7, 8]);
    let few: Vec<u32> = vec![4, 9, 1];
    assert_eq!(stride_sample(&few), few);
    let exactly8: Vec<u32> = (0..8).collect();
    assert_eq!(stride_sample(&exactly8), exactly8);
    let many: Vec<u32> = (0..100).collect();
    assert_eq!(stride_sample(&many), vec![0, 12, 25, 37, 50, 62, 75, 87]);
}

#[test]
fn track_index_groups_times_by_hash() {
    let t = fp(vec![(7, 10), (7, 20), (8, 5)]);
    let idx = track_index(&t);
    assert_eq!(idx.len(), 2);
    assert_eq!(idx[&7], vec![10, 20]);
    assert_eq!(idx[&8], vec![5]);
}

#[test]
fn mix_occurrence_counts() {
    let m = fp(vec![(7, 1), (8, 2), (7, 3)]);
    let occ = mix_occurrences(&m);
    assert_eq!(occ[&7], 2);
    assert_eq!(occ[&8], 1);
    assert_eq!(occ.len(), 2);
}

#[test]
fn votes_collect_distinct_hashes_per_offset() {
    let mix = fp(vec![(7, 110), (8, 105), (7, 120), (8, 105)]);
    let track = fp(vec![(7, 10), (8, 5)]);
    let tmap = track_index(&track);
    let occ = mix_occurrences(&mix);
    let mut votes = offset_votes(&mix, &tmap, &occ);
    for v in votes.iter_mut() {
        v.1.sort();
    }
    votes.sort();
    assert_eq!(votes, vec![(100, vec![7, 8]), (110, vec![7])]);
}

#[test]
fn too_common_mix_hashes_do_not_vote() {
    let mut hashes: Vec<(u32, u32)> = (0..65).map(|i| (9, 1000 + i)).collect();
    hashes.push((7, 110));
    let mix = fp(hashes);
    let track = fp(vec![(9, 0), (7, 10)]);
    let tmap = track_index(&track);
    let occ = mix_occurrences(&mix);
    let votes = offset_votes(&mix, &tmap, &occ);
    assert_eq!(votes, vec![(100, vec![7])]);
    assert_eq!(matched_pairs(&mix, &tmap, &occ, 1000), vec![]);
}

#[test]
fn matched_pairs_sorted_by_frame() {
    let mix = fp(vec![(7, 110), (8, 105), (7, 120), (9, 300)]);
    let track = fp(vec![(7, 10), (8, 5), (7, 20)]);
    let tmap = track_index(&track);
    let occ = mix_occurrences(&mix);
    assert_eq!(matched_pairs(&mix, &tmap, &occ, 100), vec![(105, 8), (110, 7), (120, 7)]);
    assert_eq!(matched_pairs(&mix, &tmap, &occ, 90), vec![(110, 7)]);
    assert_eq!(matched_pairs(&mix, &tmap, &occ, 5), vec![]);
}

#[test]
fn runs_split_on_large_gaps() {
    let pairs = vec![(0, 1), (10, 2), (200, 3), (210, 4)];
    assert_eq!(split_runs(&pairs), vec![(0, 2), (2, 4)]);
    let close = vec![(0, 1), (172, 2), (344, 3)];
    assert_eq!(split_runs(&close), vec![(0, 3)]);
    assert_eq!(split_runs(&vec![(5, 1)]), vec![]);
    assert_eq!(split_runs(&vec![]), vec![]);
}

#[test]
fn dense_run_is_kept_whole() {
    let run: Vec<(u32, u32)> = (0..100).map(|t| (t, t + 1000)).collect();
    let tr = trim_run(&run).expect("dense run kept");
    assert_eq!((tr.first, tr.last), (0, 99));
    assert_eq!(tr.hashes.len(), 100);
}

#[test]
fn sparse_run_is_rejected() {
    let run = vec![(0, 1), (50, 2), (100, 3)];
    assert!(trim_run(&run).is_none());
    // two distinct frames never make a segment
    assert!(trim_run(&vec![(0, 1), (1, 2)]).is_none());
    assert!(trim_run(&vec![(3, 1)]).is_none());
}

#[test]
fn weak_trailing_bucket_is_trimmed() {
    let mut run: Vec<(u32, u32)> = (0..43).map(|t| (t, 7)).collect();
    run.push((50, 8));
    run.push((100, 9));
    let tr = trim_run(&run).expect("core kept");
    assert_eq!((tr.first, tr.last), (0, 50));
    let mut hs = tr.hashes.clone();
    hs.sort();
    assert_eq!(hs, vec![7, 8]);
}

#[test]
fn weak_leading_bucket_is_trimmed() {
    let mut run: Vec<(u32, u32)> = vec![(0, 1)];
    run.extend((43..86).map(|t| (t, 2)));
    run.extend((86..129).map(|t| (t, 3)));
    let tr = trim_run(&run).expect("core kept");
    assert_eq!((tr.first, tr.last), (43, 128));
}

#[test]
fn repeated_frames_count_once_in_density() {
    // frames 0, 1, 2 each matched by two hashes: three distinct frames
    let run = vec![(0, 1), (0, 2), (1, 3), (1, 4), (2, 5), (2, 6)];
    let tr = trim_run(&run).expect("kept");
    assert_eq!((tr.first, tr.last), (0, 2));
    assert_eq!(tr.hashes.len(), 6);
}

#[test]
fn track_played_at_offset_is_voted_there() {
    let track = fp(vec![(1, 0), (2, 3), (3, 7), (2, 9)]);
    // the track plays 500 frames into the mix, after some unrelated material
    let mut mix_hashes = vec![(40, 10), (41, 20)];
    mix_hashes.extend(track.hashes.iter().map(|&(h, t)| (h, t + 500)));
    let mix = fp(mix_hashes);
    let tmap = track_index(&track);
    let occ = mix_occurrences(&mix);
    let votes = offset_votes(&mix, &tmap, &occ);
    let at = votes.iter().find(|v| v.0 == 500).expect("offset 500 voted");
    let mut hs = at.1.clone();
    hs.sort();
    assert_eq!(hs, vec![1, 2, 3]);
    // every vote lines up a track occurrence with a mix occurrence
    for (o, hs) in &votes {
        for h in hs {
            assert!(track.hashes.iter().any(|&(th, tt)| th == *h
                && mix.hashes.iter().any(|&(mh, mt)| mh == *h && mt as i64 - tt as i64 == *o)));
        }
    }
}

#[test]
fn a_repeated_pair_changes_no_trim() {
    let mut run: Vec<(u32, u32)> = (0..43).map(|t| (t, t % 7)).collect();
    run.push((50, 8));
    run.push((100, 9));
    let base = trim_run(&run).expect("core kept");
    let mut twice = run.clone();
    twice.insert(11, run[10]);
    twice.insert(44, run[42]);
    let again = trim_run(&twice).expect("core kept");
    assert_eq!((again.first, again.last), (base.first, base.last));
    let (mut a, mut b) = (base.hashes.clone(), again.hashes.clone());
    a.sort();
    b.sort();
    assert_eq!(a, b);
}

#[test]
fn at_most_three_segments_listed_by_start() {
    assert_eq!(reported_segments(&vec![900, 100, 500, 50, 10]), vec![1, 2, 0]);
    assert_eq!(reported_segments(&vec![7, 7]), vec![0, 1]);
    assert!(reported_segments(&vec![]).is_empty());
}

#[test]
fn offsets_without_votes_are_never_listed() {
    let mix = fp(vec![(7, 110), (9, 5)]);
    let track = fp(vec![(8, 10)]);
    let tmap = track_index(&track);
    let occ = mix_occurrences(&mix);
    assert!(offset_votes(&mix, &tmap, &occ).is_empty());
    let track = fp(vec![(7, 10)]);
    let tmap = track_index(&track);
    let votes = offset_votes(&mix, &tmap, &occ);
    assert!(votes.iter().all(|(_, hs)| !hs.is_empty()));
    assert_eq!(votes, vec![(100, vec![7])]);
}
