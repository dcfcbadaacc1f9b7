//! Mix analysis, integer part: library-level hash rarity (document
//! frequency, the denominator of the IDF weights) and the assembly of the
//! final tracklist from the segments found for every track.

use vstd::prelude::*;
use vstd::std_specs::hash::group_hash_axioms;
use std::collections::HashMap;
use std::collections::HashSet;
use crate::fingerprint::Fingerprint;
use crate::matcher::has_hash;
use crate::order::{is_stable_order, key_before, stable_order};

verus! {

broadcast use group_hash_axioms;

/// Number of library tracks whose fingerprint holds hash `h`.
pub open spec fn doc_freq(tracks: Seq<(i64, Fingerprint)>, h: u32) -> nat
    decreases tracks.len(),
{
    if tracks.len() == 0 {
        0
    } else {
        doc_freq(tracks.drop_last(), h) + (if has_hash(tracks.last().1.hashes@, h) {
            1nat
        } else {
            0nat
        })
    }
}

proof fn lemma_doc_freq_bound(tracks: Seq<(i64, Fingerprint)>, h: u32)
    ensures
        doc_freq(tracks, h) <= tracks.len(),
    decreases tracks.len(),
{
    if tracks.len() > 0 {
        lemma_doc_freq_bound(tracks.drop_last(), h);
    }
}

/// Document frequency of every hash in the library: in how many tracks it
/// occurs (each track counted once, however often the hash recurs in it).
pub fn document_frequencies(tracks: &Vec<(i64, Fingerprint)>) -> (df: HashMap<u32, usize>)
    ensures
        forall|h: u32| #[trigger] df@.contains_key(h) <==> doc_freq(tracks@, h) > 0,
        forall|h: u32| #[trigger] df@.contains_key(h) ==> df@[h] == doc_freq(tracks@, h),
        forall|h: u32| #[trigger] df@.contains_key(h) ==> 0 < df@[h] <= tracks.len(),
{
    let nt = tracks.len();
    let mut df: HashMap<u32, usize> = HashMap::new();
    let mut i: usize = 0;
    while i < nt
        invariant
            i <= nt == tracks.len(),
            forall|h: u32| #[trigger] df@.contains_key(h) <==> doc_freq(tracks@.take(i as int), h) > 0,
            forall|h: u32| #[trigger] df@.contains_key(h) ==> df@[h] == doc_freq(tracks@.take(i as int), h),
        decreases nt - i,
    {
        let hs = &tracks[i].1.hashes;
        let ghost pre = tracks@.take(i as int);
        let ghost post = tracks@.take(i + 1);
        assert(post.drop_last() =~= pre);
        assert(post.last() == tracks@[i as int]);
        proof {
            lemma_doc_freq_bound(pre, 0);
        }
        let mut seen: HashSet<u32> = HashSet::new();
        let mut k: usize = 0;
        while k < hs.len()
            invariant
                k <= hs.len(),
                i < nt == tracks.len(),
                *hs == tracks@[i as int].1.hashes,
                pre == tracks@.take(i as int),
                forall|h: u32| #[trigger] seen@.contains(h) <==> has_hash(hs@.take(k as int), h),
                forall|h: u32| #[trigger] df@.contains_key(h) <==> (doc_freq(pre, h) > 0 || seen@.contains(h)),
                forall|h: u32|
                    #[trigger] df@.contains_key(h) ==> df@[h] == doc_freq(pre, h) + (if seen@.contains(h) {
                        1nat
                    } else {
                        0nat
                    }),
            decreases hs.len() - k,
        {
            let h = hs[k].0;
            let ghost hp = hs@.take(k as int);
            let ghost hq = hs@.take(k + 1);
            if !seen.contains(&h) {
                seen.insert(h);
                proof {
                    lemma_doc_freq_bound(pre, h);
                }
                let c = match df.get(&h) {
                    Some(c) => *c,
                    None => 0,
                };
                df.insert(h, c + 1);
            }
            proof {
                assert forall|g: u32| #[trigger] seen@.contains(g) <==> has_hash(hq, g) by {
                    assert(hq[k as int].0 == h);
                    if has_hash(hq, g) && g != h {
                        let j = choose|j: int| 0 <= j < hq.len() && (#[trigger] hq[j]).0 == g;
                        assert(hp[j] == hq[j]);
                    }
                    if has_hash(hp, g) {
                        let j = choose|j: int| 0 <= j < hp.len() && (#[trigger] hp[j]).0 == g;
                        assert(hq[j] == hp[j]);
                    }
                }
            }
            k = k + 1;
        }
        assert(hs@.take(hs.len() as int) =~= hs@);
        i = i + 1;
    }
    assert(tracks@.take(nt as int) =~= tracks@);
    assert forall|h: u32| #[trigger] df@.contains_key(h) implies 0 < df@[h] <= tracks.len() by {
        lemma_doc_freq_bound(tracks@, h);
    }
    df
}

/// A detected span of a track in the mix, in STFT frames, with its
/// confidence as an order-preserving key (a higher key is a higher
/// confidence).
#[derive(Clone, Copy, Debug, PartialEq, Eq)]
pub struct Segment {
    pub track_id: i64,
    pub start: u32,
    pub end: u32,
    pub confidence: u64,
}

/// Two segments of the same track overlap in time.
pub open spec fn overlaps(a: Segment, b: Segment) -> bool {
    a.track_id == b.track_id && b.start < a.end && a.start < b.end
}

/// The start frames of the segments, as sort keys.
pub open spec fn start_keys(segs: Seq<Segment>) -> Seq<i128> {
    segs.map_values(|s: Segment| s.start as i128)
}

/// Segment `a` ranks before segment `b`: higher confidence first, then the
/// earlier start, then the earlier segment.
pub open spec fn ranks_before(segs: Seq<Segment>, a: int, b: int) -> bool {
    ||| segs[a].confidence > segs[b].confidence
    ||| segs[a].confidence == segs[b].confidence && segs[a].start < segs[b].start
    ||| segs[a].confidence == segs[b].confidence && segs[a].start == segs[b].start && a < b
}

/// The sort key of a segment's rank: confidence descending, then start.
pub open spec fn rank_key(s: Segment) -> i128 {
    ((u64::MAX - s.confidence) * 0x1_0000_0000 + s.start) as i128
}

/// The rank keys of the segments.
pub open spec fn rank_keys(segs: Seq<Segment>) -> Seq<i128> {
    segs.map_values(|s: Segment| rank_key(s))
}

proof fn lemma_rank_key(x: Segment, y: Segment)
    ensures
        0 <= (u64::MAX - x.confidence) * 0x1_0000_0000 + x.start < 0x1_0000_0000_0000_0000_0000_0000,
        rank_key(x) < rank_key(y) <==> (x.confidence > y.confidence || (x.confidence
            == y.confidence && x.start < y.start)),
        rank_key(x) == rank_key(y) <==> (x.confidence == y.confidence && x.start == y.start),
{
    let cx: int = u64::MAX - x.confidence;
    let cy: int = u64::MAX - y.confidence;
    let sx: int = x.start as int;
    let sy: int = y.start as int;
    assert(0 <= cx * 0x1_0000_0000 + sx < 0x1_0000_0000_0000_0000_0000_0000) by (nonlinear_arith)
        requires
            0 <= cx < 0x1_0000_0000_0000_0000,
            0 <= sx < 0x1_0000_0000,
    ;
    assert(0 <= cy * 0x1_0000_0000 + sy < 0x1_0000_0000_0000_0000_0000_0000) by (nonlinear_arith)
        requires
            0 <= cy < 0x1_0000_0000_0000_0000,
            0 <= sy < 0x1_0000_0000,
    ;
    assert((cx * 0x1_0000_0000 + sx < cy * 0x1_0000_0000 + sy) <==> (cx < cy || (cx == cy && sx
        < sy))) by (nonlinear_arith)
        requires
            0 <= sx < 0x1_0000_0000,
            0 <= sy < 0x1_0000_0000,
    ;
    assert((cx * 0x1_0000_0000 + sx == cy * 0x1_0000_0000 + sy) <==> (cx == cy && sx == sy)) by (nonlinear_arith)
        requires
            0 <= sx < 0x1_0000_0000,
            0 <= sy < 0x1_0000_0000,
    ;
}

/// In the stable order of the rank keys, a segment comes before another
/// exactly when it ranks before it.
proof fn lemma_rank_order(segs: Seq<Segment>, a: int, b: int)
    requires
        0 <= a < segs.len(),
        0 <= b < segs.len(),
    ensures
        key_before(rank_keys(segs), a, b) <==> ranks_before(segs, a, b),
{
    lemma_rank_key(segs[a], segs[b]);
}

/// Greedy selection over the segments in the order `order` (first `n`):
/// a segment is kept unless it overlaps an already kept segment.
pub open spec fn kept_in_order(segs: Seq<Segment>, order: Seq<usize>, n: int) -> Seq<usize>
    decreases n,
{
    if n <= 0 {
        Seq::<usize>::empty()
    } else {
        let prev = kept_in_order(segs, order, n - 1);
        let x = order[n - 1];
        if exists|k: int| 0 <= k < prev.len() && overlaps(segs[#[trigger] prev[k] as int], segs[x as int]) {
            prev
        } else {
            prev.push(x)
        }
    }
}

/// `out` are the detections of a mix: going through the segments from the
/// highest-ranked down, each one is kept unless it overlaps a segment of its
/// track already kept; the kept segments are listed by start (then by
/// position).
pub open spec fn is_detection_selection(segs: Seq<Segment>, out: Seq<usize>) -> bool {
    exists|r: Seq<usize>|
        #[trigger] is_stable_order(rank_keys(segs), r) && (forall|i: usize|
            #[trigger] out.contains(i) <==> kept_in_order(segs, r, segs.len() as int).contains(i))
            && (forall|a: int, b: int|
            0 <= a < b < out.len() ==> key_before(start_keys(segs), #[trigger] out[a] as int, #[trigger] out[b] as int))
}

proof fn lemma_kept_in_order(segs: Seq<Segment>, order: Seq<usize>, n: int)
    requires
        0 <= n <= order.len(),
        forall|m: int| 0 <= m < order.len() ==> #[trigger] order[m] < segs.len(),
    ensures
        forall|a: int| 0 <= a < kept_in_order(segs, order, n).len() ==> exists|m: int|
            0 <= m < n && order[m] == #[trigger] kept_in_order(segs, order, n)[a],
        forall|a: int, b: int|
            0 <= a < b < kept_in_order(segs, order, n).len() ==> !overlaps(
                segs[#[trigger] kept_in_order(segs, order, n)[a] as int],
                segs[#[trigger] kept_in_order(segs, order, n)[b] as int],
            ),
        forall|m: int|
            0 <= m < n ==> kept_in_order(segs, order, n).contains(#[trigger] order[m]) || exists|m2: int|
                0 <= m2 < m && #[trigger] kept_in_order(segs, order, n).contains(order[m2]) && overlaps(
                    segs[order[m2] as int],
                    segs[order[m] as int],
                ),
    decreases n,
{
    if n > 0 {
        lemma_kept_in_order(segs, order, n - 1);
        let prev = kept_in_order(segs, order, n - 1);
        let cur = kept_in_order(segs, order, n);
        let x = order[n - 1];
        if exists|k: int| 0 <= k < prev.len() && overlaps(segs[#[trigger] prev[k] as int], segs[x as int]) {
            assert(cur == prev);
            assert forall|m: int| 0 <= m < n implies cur.contains(#[trigger] order[m]) || exists|m2: int|
                0 <= m2 < m && #[trigger] cur.contains(order[m2]) && overlaps(
                    segs[order[m2] as int],
                    segs[order[m] as int],
                ) by {
                if m == n - 1 {
                    let k = choose|k: int| 0 <= k < prev.len() && overlaps(segs[#[trigger] prev[k] as int], segs[x as int]);
                    let m2 = choose|m2: int| 0 <= m2 < n - 1 && order[m2] == #[trigger] prev[k];
                    assert(cur.contains(order[m2]));
                } else {
                    if !cur.contains(order[m]) {
                        let m2 = choose|m2: int|
                            0 <= m2 < m && #[trigger] prev.contains(order[m2]) && overlaps(
                                segs[order[m2] as int],
                                segs[order[m] as int],
                            );
                        assert(cur.contains(order[m2]));
                    }
                }
            }
        } else {
            assert(cur == prev.push(x));
            assert forall|a: int| 0 <= a < cur.len() implies exists|m: int|
                0 <= m < n && order[m] == #[trigger] cur[a] by {
                if a == prev.len() {
                    assert(order[n - 1] == cur[a]);
                } else {
                    assert(cur[a] == prev[a]);
                    let m = choose|m: int| 0 <= m < n - 1 && order[m] == #[trigger] prev[a];
                    assert(order[m] == cur[a]);
                }
            }
            assert forall|a: int, b: int| 0 <= a < b < cur.len() implies !overlaps(
                segs[#[trigger] cur[a] as int],
                segs[#[trigger] cur[b] as int],
            ) by {
                if b == prev.len() {
                    assert(cur[a] == prev[a]);
                    if overlaps(segs[cur[a] as int], segs[cur[b] as int]) {
                        assert(overlaps(segs[prev[a] as int], segs[x as int]));
                    }
                } else {
                    assert(cur[a] == prev[a] && cur[b] == prev[b]);
                }
            }
            assert forall|m: int| 0 <= m < n implies cur.contains(#[trigger] order[m]) || exists|m2: int|
                0 <= m2 < m && #[trigger] cur.contains(order[m2]) && overlaps(
                    segs[order[m2] as int],
                    segs[order[m] as int],
                ) by {
                if m == n - 1 {
                    assert(cur[prev.len() as int] == order[m]);
                } else if prev.contains(order[m]) {
                    let q = choose|q: int| 0 <= q < prev.len() && prev[q] == order[m];
                    assert(cur[q] == order[m]);
                    assert(cur.contains(order[m]));
                } else {
                    let m2 = choose|m2: int|
                        0 <= m2 < m && #[trigger] prev.contains(order[m2]) && overlaps(
                            segs[order[m2] as int],
                            segs[order[m] as int],
                        );
                    let q = choose|q: int| 0 <= q < prev.len() && prev[q] == order[m2];
                    assert(cur[q] == order[m2]);
                    assert(cur.contains(order[m2]));
                }
            }
        }
    }
}

fn overlaps_any(segs: &Vec<Segment>, kept: &Vec<usize>, x: usize) -> (b: bool)
    requires
        x < segs.len(),
        forall|k: int| 0 <= k < kept.len() ==> #[trigger] kept@[k] < segs.len(),
    ensures
        b == exists|k: int| 0 <= k < kept.len() && overlaps(segs@[#[trigger] kept@[k] as int], segs@[x as int]),
{
    let s = segs[x];
    let mut i: usize = 0;
    while i < kept.len()
        invariant
            i <= kept.len(),
            x < segs.len(),
            s == segs@[x as int],
            forall|k: int| 0 <= k < kept.len() ==> #[trigger] kept@[k] < segs.len(),
            forall|k: int| 0 <= k < i ==> !overlaps(segs@[#[trigger] kept@[k] as int], s),
        decreases kept.len() - i,
    {
        let k = segs[kept[i]];
        if k.track_id == s.track_id && s.start < k.end && k.start < s.end {
            return true;
        }
        i = i + 1;
    }
    false
}

/// Deduplicate the segments found for all tracks: going from the highest
/// confidence down, keep each segment that overlaps no kept segment of its
/// track; the result lists the kept segments' indices in tracklist order
/// (by start).
pub fn select_detections(segs: &Vec<Segment>) -> (out: Vec<usize>)
    ensures
        is_detection_selection(segs@, out@),
        forall|k: int| 0 <= k < out.len() ==> #[trigger] out@[k] < segs.len(),
        // no two detections of the same track overlap
        forall|a: int, b: int|
            0 <= a < b < out.len() ==> !overlaps(
                segs@[#[trigger] out@[a] as int],
                segs@[#[trigger] out@[b] as int],
            ),
        // the tracklist runs in order of start
        forall|a: int, b: int|
            0 <= a < b < out.len() ==> segs@[#[trigger] out@[a] as int].start <= segs@[#[trigger] out@[b] as int].start,
        // a dropped segment overlaps a kept one of its track that ranks
        // before it (at least as confident)
        forall|i: usize|
            i < segs.len() ==> #[trigger] out@.contains(i) || exists|a: int|
                0 <= a < out.len() && overlaps(segs@[#[trigger] out@[a] as int], segs@[i as int])
                    && ranks_before(segs@, out@[a] as int, i as int),
{
    let n = segs.len();
    // rank order: confidence descending, then start, then position
    let mut rkeys: Vec<i128> = Vec::new();
    let mut i: usize = 0;
    while i < n
        invariant
            i <= n == segs.len(),
            rkeys@ =~= rank_keys(segs@).take(i as int),
        decreases n - i,
    {
        let s = segs[i];
        proof {
            lemma_rank_key(s, s);
        }
        let key = ((u64::MAX - s.confidence) as i128) * 0x1_0000_0000i128 + (s.start as i128);
        rkeys.push(key);
        i = i + 1;
    }
    assert(rkeys@ =~= rank_keys(segs@));
    let r = stable_order(&rkeys);
    // greedy selection in rank order
    let mut kept: Vec<usize> = Vec::new();
    let mut i: usize = 0;
    while i < n
        invariant
            i <= n == segs.len() == r.len(),
            is_stable_order(rank_keys(segs@), r@),
            kept@ == kept_in_order(segs@, r@, i as int),
            forall|k: int| 0 <= k < kept.len() ==> #[trigger] kept@[k] < segs.len(),
        decreases n - i,
    {
        let x = r[i];
        if !overlaps_any(segs, &kept, x) {
            kept.push(x);
        }
        i = i + 1;
    }
    proof {
        lemma_kept_in_order(segs@, r@, n as int);
    }
    // mark the kept segments
    let mut flags: Vec<bool> = Vec::new();
    let mut i: usize = 0;
    while i < n
        invariant
            i <= n,
            flags.len() == i,
            forall|j: int| 0 <= j < i ==> !#[trigger] flags@[j],
        decreases n - i,
    {
        flags.push(false);
        i = i + 1;
    }
    let mut a: usize = 0;
    while a < kept.len()
        invariant
            a <= kept.len(),
            flags.len() == n == segs.len(),
            forall|k: int| 0 <= k < kept.len() ==> #[trigger] kept@[k] < segs.len(),
            forall|j: int| 0 <= j < n ==> (#[trigger] flags@[j] <==> kept@.take(a as int).contains(j as usize)),
        decreases kept.len() - a,
    {
        let ghost before = kept@.take(a as int);
        let ghost old_flags = flags@;
        let x = kept[a];
        assert(kept@.take(a + 1) =~= before.push(x));
        flags.set(x, true);
        proof {
            assert forall|j: int| 0 <= j < n implies (#[trigger] flags@[j] <==> kept@.take(a + 1).contains(j as usize)) by {
                let after = kept@.take(a + 1);
                if j == x as int {
                    assert(after[a as int] == x);
                } else {
                    assert(flags@[j] == old_flags[j]);
                    if after.contains(j as usize) {
                        let q = choose|q: int| 0 <= q < after.len() && after[q] == j as usize;
                        assert(before[q] == j as usize);
                    }
                    if before.contains(j as usize) {
                        let q = choose|q: int| 0 <= q < before.len() && before[q] == j as usize;
                        assert(after[q] == j as usize);
                    }
                }
            }
        }
        a = a + 1;
    }
    assert(kept@.take(kept.len() as int) =~= kept@);
    // list them by start
    let mut skeys: Vec<i128> = Vec::new();
    let mut i: usize = 0;
    while i < n
        invariant
            i <= n == segs.len(),
            skeys@ =~= start_keys(segs@).take(i as int),
        decreases n - i,
    {
        skeys.push(segs[i].start as i128);
        i = i + 1;
    }
    assert(skeys@ =~= start_keys(segs@));
    let p = stable_order(&skeys);
    let mut out: Vec<usize> = Vec::new();
    let mut i: usize = 0;
    while i < n
        invariant
            i <= n == segs.len() == p.len() == flags.len(),
            is_stable_order(start_keys(segs@), p@),
            forall|j: int| 0 <= j < n ==> (#[trigger] flags@[j] <==> kept@.contains(j as usize)),
            forall|q: int| 0 <= q < out.len() ==> exists|m: int| 0 <= m < i && p@[m] == #[trigger] out@[q],
            forall|q: int| 0 <= q < out.len() ==> kept@.contains(#[trigger] out@[q]),
            forall|m: int| 0 <= m < i && #[trigger] flags@[p@[m] as int] ==> out@.contains(p@[m]),
            forall|a: int, b: int|
                0 <= a < b < out.len() ==> key_before(start_keys(segs@), #[trigger] out@[a] as int, #[trigger] out@[b] as int),
        decreases n - i,
    {
        let x = p[i];
        if flags[x] {
            let ghost old_out = out@;
            out.push(x);
            proof {
                assert forall|q: int| 0 <= q < out.len() implies exists|m: int|
                    0 <= m < i + 1 && p@[m] == #[trigger] out@[q] by {
                    if q < old_out.len() {
                        assert(out@[q] == old_out[q]);
                        let m = choose|m: int| 0 <= m < i && p@[m] == #[trigger] old_out[q];
                    } else {
                        assert(p@[i as int] == out@[q]);
                    }
                }
                assert forall|a: int, b: int| 0 <= a < b < out.len() implies key_before(
                    start_keys(segs@),
                    #[trigger] out@[a] as int,
                    #[trigger] out@[b] as int,
                ) by {
                    if b == old_out.len() {
                        assert(out@[a] == old_out[a]);
                        let m = choose|m: int| 0 <= m < i && p@[m] == #[trigger] old_out[a];
                        assert(key_before(start_keys(segs@), p@[m] as int, p@[i as int] as int));
                    } else {
                        assert(out@[a] == old_out[a] && out@[b] == old_out[b]);
                    }
                }
                assert forall|m: int| 0 <= m < i + 1 && #[trigger] flags@[p@[m] as int] implies out@.contains(p@[m]) by {
                    if m < i {
                        assert(old_out.contains(p@[m]));
                        let q = choose|q: int| 0 <= q < old_out.len() && old_out[q] == p@[m];
                        assert(out@[q] == p@[m]);
                    } else {
                        assert(out@[old_out.len() as int] == p@[m]);
                    }
                }
            }
        }
        i = i + 1;
    }
    proof {
        let kset = kept_in_order(segs@, r@, n as int);
        assert(kset == kept@);
        assert forall|x: usize| #[trigger] out@.contains(x) <==> kept@.contains(x) by {
            if kept@.contains(x) {
                let q = choose|q: int| 0 <= q < kept.len() && kept@[q] == x;
                assert(x < n);
                assert(flags@[x as int]);
                assert(p@.contains(x));
                let m = choose|m: int| 0 <= m < p.len() && p@[m] == x;
                assert(flags@[p@[m] as int]);
            }
            if out@.contains(x) {
                let q = choose|q: int| 0 <= q < out.len() && out@[q] == x;
                assert(kept@.contains(out@[q]));
            }
        }
        assert(is_stable_order(rank_keys(segs@), r@));
        assert forall|k: int| 0 <= k < out.len() implies #[trigger] out@[k] < segs.len() by {
            assert(kept@.contains(out@[k]));
            let q = choose|q: int| 0 <= q < kept.len() && kept@[q] == out@[k];
        }
        assert forall|a: int, b: int| 0 <= a < b < out.len() implies !overlaps(
            segs@[#[trigger] out@[a] as int],
            segs@[#[trigger] out@[b] as int],
        ) by {
            assert(key_before(start_keys(segs@), out@[a] as int, out@[b] as int));
            assert(out@[a] != out@[b]);
            assert(kept@.contains(out@[a]) && kept@.contains(out@[b]));
            let qa = choose|qa: int| 0 <= qa < kept.len() && kept@[qa] == out@[a];
            let qb = choose|qb: int| 0 <= qb < kept.len() && kept@[qb] == out@[b];
            if qa < qb {
                assert(!overlaps(segs@[kept@[qa] as int], segs@[kept@[qb] as int]));
            } else {
                assert(!overlaps(segs@[kept@[qb] as int], segs@[kept@[qa] as int]));
            }
        }
        assert forall|a: int, b: int| 0 <= a < b < out.len() implies segs@[#[trigger] out@[a] as int].start
            <= segs@[#[trigger] out@[b] as int].start by {
            assert(key_before(start_keys(segs@), out@[a] as int, out@[b] as int));
        }
        assert forall|i: usize| i < segs.len() implies #[trigger] out@.contains(i) || exists|a: int|
            0 <= a < out.len() && overlaps(segs@[#[trigger] out@[a] as int], segs@[i as int])
                && ranks_before(segs@, out@[a] as int, i as int) by {
            assert(r@.contains(i));
            let m = choose|m: int| 0 <= m < r.len() && r@[m] == i;
            if !out@.contains(i) {
                assert(!kept@.contains(r@[m]));
                let m2 = choose|m2: int|
                    0 <= m2 < m && #[trigger] kept@.contains(r@[m2]) && overlaps(
                        segs@[r@[m2] as int],
                        segs@[r@[m] as int],
                    );
                assert(out@.contains(r@[m2]));
                let a = choose|a: int| 0 <= a < out.len() && out@[a] == r@[m2];
                assert(key_before(rank_keys(segs@), r@[m2] as int, r@[m] as int));
                lemma_rank_order(segs@, r@[m2] as int, r@[m] as int);
                assert(overlaps(segs@[out@[a] as int], segs@[i as int]) && ranks_before(segs@, out@[a] as int, i as int));
            }
        }
    }
    out
}

} // verus!
