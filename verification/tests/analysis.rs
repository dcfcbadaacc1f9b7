use mixid_core::analysis::{document_frequencies, select_detections, Segment};
use mixid_core::fingerprint::Fingerprint;

fn seg(track_id: i64, start: u32, end: u32) -> Segment {
    conf_seg(track_id, start, end, 0.9)
}

fn conf_seg(track_id: i64, start: u32, end: u32, confidence: f64) -> Segment {
    Segment { track_id, start, end, confidence: confidence.to_bits() }
}

#[test]
fn document_frequency_counts_tracks_not_occurrences() {
    let tracks = vec![
        (1, Fingerprint { hashes: vec![(7, 0), (7, 3), (8, 1)] }),
        (2, Fingerprint { hashes: vec![(7, 5)] }),
        (3, Fingerprint { hashes: vec![] }),
    ];
    let df = document_frequencies(&tracks);
    assert_eq!(df.len(), 2);
    assert_eq!(df[&7], 2);
    assert_eq!(df[&8], 1);
    assert!(document_frequencies(&vec![]).is_empty());
}

#[test]
fn detections_sorted_and_overlaps_of_same_track_dropped() {
    let segs = vec![seg(1, 100, 200), seg(2, 50, 150), seg(1, 150, 250), seg(1, 300, 400)];
    assert_eq!(select_detections(&segs), vec![1, 0, 3]);
}

#[test]
fn touching_segments_do_not_overlap_and_other_tracks_are_kept() {
    let segs = vec![seg(1, 0, 100), seg(1, 100, 200), seg(2, 10, 90)];
    assert_eq!(select_detections(&segs), vec![0, 2, 1]);
}

#[test]
fn equal_starts_keep_input_order() {
    let segs = vec![seg(3, 10, 20), seg(3, 10, 30), seg(4, 10, 20)];
    assert_eq!(select_detections(&segs), vec![0, 2]);
    assert!(select_detections(&vec![]).is_empty());
}

#[test]
fn overlapping_segments_keep_the_more_confident() {
    // the later segment of track 1 is the more confident: it is kept
    let segs = vec![conf_seg(1, 100, 200, 0.5), conf_seg(1, 150, 250, 0.8)];
    assert_eq!(select_detections(&segs), vec![1]);
    let segs = vec![conf_seg(1, 100, 200, 0.8), conf_seg(1, 150, 250, 0.5)];
    assert_eq!(select_detections(&segs), vec![0]);
}

#[test]
fn a_dropped_segment_frees_its_neighbour() {
    // B overlaps both A and C; A is kept over B, so C (overlapping only B)
    // stays even though it is the least confident
    let segs = vec![
        conf_seg(1, 0, 100, 0.9),
        conf_seg(1, 90, 210, 0.8),
        conf_seg(1, 200, 300, 0.4),
    ];
    assert_eq!(select_detections(&segs), vec![0, 2]);
}
