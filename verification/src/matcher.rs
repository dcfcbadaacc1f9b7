//! Offset-voting matcher (dejavu-style), integer part: where a track's
//! fingerprint occurs inside a mix's fingerprint.
//!
//! Every mix hash that also occurs in the track votes for the offsets
//! `mix_frame − track_frame` at which the two line up; each offset collects
//! the DISTINCT hashes voting for it. At a candidate offset the matched
//! `(mix_frame, hash)` pairs are split into contiguous runs, and each run is
//! trimmed to its dense core. The IDF weighting of hashes (library-level
//! rarity, `1/df`) and the confidence derived from it are real-valued and are
//! applied by the caller to what these functions return.

use vstd::prelude::*;
use vstd::std_specs::hash::group_hash_axioms;
use std::collections::HashMap;
use std::collections::HashSet;
use crate::fingerprint::Fingerprint;
use crate::order::{is_stable_order, key_before, stable_order};

verus! {

broadcast use group_hash_axioms;

/// Per-hash occurrence cap in the track; kept occurrences are stride-sampled
/// across the track so late sections of loop-heavy tracks stay visible.
pub const MAX_HASH_OCCURRENCES: usize = 8;

/// Skip mix hashes occurring more than this many times (loops, silence).
pub const MAX_MIX_HASH_OCCURRENCES: u32 = 64;

/// Report at most this many segments per track.
pub const MAX_SEGMENTS_PER_TRACK: usize = 3;

/// Score at most this many candidate offsets per track (by weighted evidence).
pub const MAX_OFFSETS_SCORED: usize = 8;

/// Matched times separated by more than this many frames belong to different
/// runs (a true segment is contiguous; ghosts stitch across song changes).
pub const RUN_GAP_TOL: u32 = 172;

/// Frames per trimming bucket: `(2.0 / FRAME_S) as i64`, about 2 s.
pub const BUCKET_FRAMES: u32 = 43;

/// Matched frames must cover at least `1 / MIN_DENSITY_INV` of the span.
pub const MIN_DENSITY_INV: usize = 4;

/// The anchor frames at which hash `h` occurs in `hs`, in order.
pub open spec fn times_of(hs: Seq<(u32, u32)>, h: u32) -> Seq<u32>
    decreases hs.len(),
{
    if hs.len() == 0 {
        Seq::<u32>::empty()
    } else if hs.last().0 == h {
        times_of(hs.drop_last(), h).push(hs.last().1)
    } else {
        times_of(hs.drop_last(), h)
    }
}

/// Hash `h` occurs in `hs`.
pub open spec fn has_hash(hs: Seq<(u32, u32)>, h: u32) -> bool {
    exists|k: int| 0 <= k < hs.len() && (#[trigger] hs[k]).0 == h
}

/// At most `MAX_HASH_OCCURRENCES` occurrence times, picked at an even stride
/// (`ts[floor(i * len / 8)]` for `i < 8`) when there are more.
pub open spec fn stride_sampled(ts: Seq<u32>) -> Seq<u32> {
    if ts.len() > MAX_HASH_OCCURRENCES {
        Seq::new(
            MAX_HASH_OCCURRENCES as nat,
            |i: int| ts[(i * ts.len()) / (MAX_HASH_OCCURRENCES as int)],
        )
    } else {
        ts
    }
}

/// `tmap` is the track index of `track`: each hash of the track mapped to
/// its stride-sampled anchor frames.
pub open spec fn is_track_index(track: Seq<(u32, u32)>, tmap: Map<u32, Vec<u32>>) -> bool {
    &&& forall|h: u32| #[trigger] tmap.contains_key(h) <==> has_hash(track, h)
    &&& forall|h: u32|
        #[trigger] tmap.contains_key(h) ==> tmap[h]@ == stride_sampled(times_of(track, h))
}

proof fn lemma_stride_index(i: int, len: int)
    requires
        0 <= i < 8,
        len > 8,
    ensures
        0 <= (i * len) / 8 < len,
        (i * len) / 8 == i * (len / 8) + (i * (len % 8)) / 8,
{
    assert(0 <= (i * len) / 8 < len) by (nonlinear_arith)
        requires
            0 <= i < 8,
            len > 8,
    ;
    assert((i * len) / 8 == i * (len / 8) + (i * (len % 8)) / 8) by (nonlinear_arith)
        requires
            0 <= i < 8,
            len > 8,
    {
        let q = len / 8;
        let r = len % 8;
        assert(len == 8 * q + r);
        assert(i * len == 8 * (i * q) + i * r);
    }
}

/// Keep at most eight occurrence times of a hash, stride-sampled.
pub fn stride_sample(ts: &Vec<u32>) -> (r: Vec<u32>)
    ensures
        r@ == stride_sampled(ts@),
        r@.len() <= MAX_HASH_OCCURRENCES,
{
    let n = ts.len();
    if n <= MAX_HASH_OCCURRENCES {
        return ts.clone();
    }
    let q = n / 8;
    let rem = n % 8;
    let mut r: Vec<u32> = Vec::new();
    let mut i: usize = 0;
    while i < MAX_HASH_OCCURRENCES
        invariant
            i <= MAX_HASH_OCCURRENCES,
            n == ts.len() > MAX_HASH_OCCURRENCES,
            q == n / 8,
            rem == n % 8,
            r@ =~= stride_sampled(ts@).take(i as int),
        decreases MAX_HASH_OCCURRENCES - i,
    {
        proof {
            lemma_stride_index(i as int, n as int);
        }
        assert(i * rem < 64 && i * q <= n) by (nonlinear_arith)
            requires
                i < 8,
                rem < 8,
                q == n / 8,
        ;
        let idx = i * q + (i * rem) / 8;
        r.push(ts[idx]);
        i = i + 1;
    }
    r
}

/// The track index: every hash of the track mapped to its stride-sampled
/// anchor frames.
pub fn track_index(track: &Fingerprint) -> (tmap: HashMap<u32, Vec<u32>>)
    ensures
        is_track_index(track.hashes@, tmap@),
{
    let hs = &track.hashes;
    let n = hs.len();
    let mut all: HashMap<u32, Vec<u32>> = HashMap::new();
    let mut k: usize = 0;
    while k < n
        invariant
            k <= n == hs.len(),
            forall|h: u32| #[trigger] all@.contains_key(h) <==> has_hash(hs@.take(k as int), h),
            forall|h: u32| #[trigger] all@.contains_key(h) ==> all@[h]@ == times_of(hs@.take(k as int), h),
        decreases n - k,
    {
        let (h, t) = hs[k];
        let ghost pre = hs@.take(k as int);
        let ghost post = hs@.take(k + 1);
        assert(post.drop_last() =~= pre);
        assert(post.last() == (h, t));
        match all.remove(&h) {
            Some(mut v) => {
                v.push(t);
                all.insert(h, v);
            },
            None => {
                let mut v: Vec<u32> = Vec::new();
                v.push(t);
                all.insert(h, v);
                assert(times_of(pre, h) =~= Seq::<u32>::empty()) by {
                    lemma_times_of_absent(pre, h);
                }
            },
        }
        proof {
            assert forall|g: u32| #[trigger] all@.contains_key(g) <==> has_hash(post, g) by {
                if has_hash(post, g) && g != h {
                    let j = choose|j: int| 0 <= j < post.len() && (#[trigger] post[j]).0 == g;
                    assert(pre[j] == post[j]);
                }
                if has_hash(pre, g) {
                    let j = choose|j: int| 0 <= j < pre.len() && (#[trigger] pre[j]).0 == g;
                    assert(post[j] == pre[j]);
                }
                assert(post[k as int] == (h, t));
            }
        }
        k = k + 1;
    }
    assert(hs@.take(n as int) =~= hs@);
    let mut tmap: HashMap<u32, Vec<u32>> = HashMap::new();
    let mut k: usize = 0;
    while k < n
        invariant
            k <= n == hs.len(),
            forall|h: u32| #[trigger] all@.contains_key(h) <==> has_hash(hs@, h),
            forall|h: u32| #[trigger] all@.contains_key(h) ==> all@[h]@ == times_of(hs@, h),
            forall|h: u32| #[trigger] tmap@.contains_key(h) <==> has_hash(hs@.take(k as int), h),
            forall|h: u32|
                #[trigger] tmap@.contains_key(h) ==> tmap@[h]@ == stride_sampled(times_of(hs@, h)),
        decreases n - k,
    {
        let h = hs[k].0;
        let ghost pre = hs@.take(k as int);
        let ghost post = hs@.take(k + 1);
        assert(has_hash(hs@, h)) by {
            assert(hs@[k as int].0 == h);
        }
        if !tmap.contains_key(&h) {
            let ts = all.get(&h).unwrap();
            let sampled = stride_sample(ts);
            tmap.insert(h, sampled);
        }
        proof {
            assert forall|g: u32| #[trigger] tmap@.contains_key(g) <==> has_hash(post, g) by {
                if has_hash(post, g) {
                    let j = choose|j: int| 0 <= j < post.len() && (#[trigger] post[j]).0 == g;
                    if j < k {
                        assert(pre[j] == post[j]);
                    }
                }
                if has_hash(pre, g) {
                    let j = choose|j: int| 0 <= j < pre.len() && (#[trigger] pre[j]).0 == g;
                    assert(post[j] == pre[j]);
                }
                assert(post[k as int].0 == h);
            }
        }
        k = k + 1;
    }
    assert(hs@.take(n as int) =~= hs@);
    tmap
}

proof fn lemma_times_of_absent(hs: Seq<(u32, u32)>, h: u32)
    requires
        !has_hash(hs, h),
    ensures
        times_of(hs, h) == Seq::<u32>::empty(),
    decreases hs.len(),
{
    if hs.len() > 0 {
        assert(hs.last() == hs[hs.len() - 1]);
        assert forall|k: int| 0 <= k < hs.drop_last().len() implies (#[trigger] hs.drop_last()[k]).0 != h by {
            assert(hs.drop_last()[k] == hs[k]);
        }
        lemma_times_of_absent(hs.drop_last(), h);
    }
}

/// Number of occurrences of hash `h` in `hs`.
pub open spec fn count_hash(hs: Seq<(u32, u32)>, h: u32) -> nat
    decreases hs.len(),
{
    if hs.len() == 0 {
        0
    } else if hs.last().0 == h {
        count_hash(hs.drop_last(), h) + 1
    } else {
        count_hash(hs.drop_last(), h)
    }
}

/// `occ` counts the occurrences of each hash of the mix, in a `u32` tally
/// that wraps around past `u32::MAX`.
pub open spec fn is_mix_occurrences(mix: Seq<(u32, u32)>, occ: Map<u32, u32>) -> bool {
    &&& forall|h: u32| #[trigger] occ.contains_key(h) <==> has_hash(mix, h)
    &&& forall|h: u32|
        #[trigger] occ.contains_key(h) ==> occ[h] == count_hash(mix, h) % 0x1_0000_0000
}

proof fn lemma_count_hash_bound(hs: Seq<(u32, u32)>, h: u32)
    ensures
        count_hash(hs, h) <= hs.len(),
        count_hash(hs, h) > 0 <==> has_hash(hs, h),
    decreases hs.len(),
{
    if hs.len() > 0 {
        lemma_count_hash_bound(hs.drop_last(), h);
        if has_hash(hs, h) && hs.last().0 != h {
            let j = choose|j: int| 0 <= j < hs.len() && (#[trigger] hs[j]).0 == h;
            assert(hs.drop_last()[j] == hs[j]);
        }
        if has_hash(hs.drop_last(), h) {
            let j = choose|j: int| 0 <= j < hs.drop_last().len() && (#[trigger] hs.drop_last()[j]).0 == h;
            assert(hs[j] == hs.drop_last()[j]);
        }
        assert(hs[hs.len() - 1] == hs.last());
    }
}

/// Mix-side occurrence count of every hash (a wrapping `u32` tally).
pub fn mix_occurrences(mix: &Fingerprint) -> (occ: HashMap<u32, u32>)
    ensures
        is_mix_occurrences(mix.hashes@, occ@),
{
    let hs = &mix.hashes;
    let n = hs.len();
    let mut occ: HashMap<u32, u32> = HashMap::new();
    let mut k: usize = 0;
    while k < n
        invariant
            k <= n == hs.len(),
            is_mix_occurrences(hs@.take(k as int), occ@),
        decreases n - k,
    {
        let h = hs[k].0;
        let ghost pre = hs@.take(k as int);
        let ghost post = hs@.take(k + 1);
        assert(post.drop_last() =~= pre);
        assert(post.last().0 == h);
        proof {
            lemma_count_hash_bound(pre, h);
        }
        let c = match occ.get(&h) {
            Some(c) => *c,
            None => 0,
        };
        assert(c == count_hash(pre, h) % 0x1_0000_0000) by {
            lemma_count_hash_bound(pre, h);
        }
        occ.insert(h, c.wrapping_add(1));
        proof {
            assert forall|g: u32| #[trigger] occ@.contains_key(g) <==> has_hash(post, g) by {
                if has_hash(post, g) && g != h {
                    let j = choose|j: int| 0 <= j < post.len() && (#[trigger] post[j]).0 == g;
                    assert(pre[j] == post[j]);
                }
                if has_hash(pre, g) {
                    let j = choose|j: int| 0 <= j < pre.len() && (#[trigger] pre[j]).0 == g;
                    assert(post[j] == pre[j]);
                }
                assert(post[k as int].0 == h);
            }
            let cnt = count_hash(pre, h);
            assert(count_hash(post, h) == cnt + 1);
            assert(c.wrapping_add(1) == (cnt + 1) % 0x1_0000_0000) by (nonlinear_arith)
                requires
                    c == cnt % 0x1_0000_0000,
                    c.wrapping_add(1) == (if c + 1 > u32::MAX { c + 1 - 0x1_0000_0000 } else { c + 1 }),
                    cnt >= 0,
            ;
        }
        k = k + 1;
    }
    assert(hs@.take(n as int) =~= hs@);
    occ
}

/// Mix hash `h` is skipped as too common in the mix (loops, silence).
pub open spec fn too_common(occ: Map<u32, u32>, h: u32) -> bool {
    occ.contains_key(h) && occ[h] > MAX_MIX_HASH_OCCURRENCES
}

/// Mix entry `k` and sampled track occurrence `j` of its hash `h` line up at
/// offset `o = mix_frame - track_frame`.
pub open spec fn vote_at(
    mix: Seq<(u32, u32)>,
    occ: Map<u32, u32>,
    tmap: Map<u32, Vec<u32>>,
    k: int,
    j: int,
    o: int,
    h: u32,
) -> bool {
    &&& 0 <= k < mix.len()
    &&& mix[k].0 == h
    &&& !too_common(occ, h)
    &&& tmap.contains_key(h)
    &&& 0 <= j < tmap[h]@.len()
    &&& mix[k].1 - tmap[h]@[j] == o
}

/// Hash `h` votes for offset `o`.
pub open spec fn votes_for(
    mix: Seq<(u32, u32)>,
    occ: Map<u32, u32>,
    tmap: Map<u32, Vec<u32>>,
    o: int,
    h: u32,
) -> bool {
    exists|k: int, j: int| #[trigger] vote_at(mix, occ, tmap, k, j, o, h)
}

/// A vote cast before position `(k, j)` of the voting loop.
spec fn voted_before(
    mix: Seq<(u32, u32)>,
    occ: Map<u32, u32>,
    tmap: Map<u32, Vec<u32>>,
    k: int,
    j: int,
    o: int,
    h: u32,
) -> bool {
    exists|k2: int, j2: int|
        #[trigger] vote_at(mix, occ, tmap, k2, j2, o, h) && (k2 < k || (k2 == k && j2 < j))
}

proof fn lemma_voted_step(
    mix: Seq<(u32, u32)>,
    occ: Map<u32, u32>,
    tmap: Map<u32, Vec<u32>>,
    k: int,
    j: int,
    o: int,
    h: u32,
)
    ensures
        voted_before(mix, occ, tmap, k, j + 1, o, h) == (voted_before(mix, occ, tmap, k, j, o, h)
            || vote_at(mix, occ, tmap, k, j, o, h)),
{
    if voted_before(mix, occ, tmap, k, j + 1, o, h) {
        let (k2, j2) = choose|k2: int, j2: int|
            #[trigger] vote_at(mix, occ, tmap, k2, j2, o, h) && (k2 < k || (k2 == k && j2 < j + 1));
        if !(k2 == k && j2 == j) {
            assert(vote_at(mix, occ, tmap, k2, j2, o, h) && (k2 < k || (k2 == k && j2 < j)));
        }
    }
    if voted_before(mix, occ, tmap, k, j, o, h) {
        let (k2, j2) = choose|k2: int, j2: int|
            #[trigger] vote_at(mix, occ, tmap, k2, j2, o, h) && (k2 < k || (k2 == k && j2 < j));
        assert(vote_at(mix, occ, tmap, k2, j2, o, h) && (k2 < k || (k2 == k && j2 < j + 1)));
    }
    if vote_at(mix, occ, tmap, k, j, o, h) {
        assert(vote_at(mix, occ, tmap, k, j, o, h) && (k < k || (k == k && j < j + 1)));
    }
}

proof fn lemma_voted_next(
    mix: Seq<(u32, u32)>,
    occ: Map<u32, u32>,
    tmap: Map<u32, Vec<u32>>,
    k: int,
    jj: int,
    o: int,
    h: u32,
)
    requires
        forall|j: int| j >= jj ==> !#[trigger] vote_at(mix, occ, tmap, k, j, o, h),
    ensures
        voted_before(mix, occ, tmap, k + 1, 0, o, h) == voted_before(mix, occ, tmap, k, jj, o, h),
{
    if voted_before(mix, occ, tmap, k + 1, 0, o, h) {
        let (k2, j2) = choose|k2: int, j2: int|
            #[trigger] vote_at(mix, occ, tmap, k2, j2, o, h) && (k2 < k + 1 || (k2 == k + 1 && j2 < 0));
        assert(vote_at(mix, occ, tmap, k2, j2, o, h) && (k2 < k || (k2 == k && j2 < jj)));
    }
    if voted_before(mix, occ, tmap, k, jj, o, h) {
        let (k2, j2) = choose|k2: int, j2: int|
            #[trigger] vote_at(mix, occ, tmap, k2, j2, o, h) && (k2 < k || (k2 == k && j2 < jj));
        assert(vote_at(mix, occ, tmap, k2, j2, o, h) && (k2 < k + 1 || (k2 == k + 1 && j2 < 0)));
    }
}

fn vec_contains(v: &Vec<u32>, x: u32) -> (b: bool)
    ensures
        b == v@.contains(x),
{
    let mut i: usize = 0;
    while i < v.len()
        invariant
            i <= v.len(),
            forall|k: int| 0 <= k < i ==> v@[k] != x,
        decreases v.len() - i,
    {
        if v[i] == x {
            return true;
        }
        i = i + 1;
    }
    false
}

/// The loop state of `offset_votes` after the votes before `(k, j)`.
spec fn votes_table_inv(
    mix: Seq<(u32, u32)>,
    occ: Map<u32, u32>,
    tmap: Map<u32, Vec<u32>>,
    k: int,
    j: int,
    order: Seq<i64>,
    table: Map<i64, Vec<u32>>,
) -> bool {
    &&& order.no_duplicates()
    &&& forall|o: i64| #[trigger] table.contains_key(o) <==> order.contains(o)
    &&& forall|o: i64| #[trigger] table.contains_key(o) ==> table[o]@.no_duplicates()
    &&& forall|o: i64| #[trigger] table.contains_key(o) ==> table[o]@.len() > 0
    &&& forall|o: i64, h: u32|
        table.contains_key(o) && #[trigger] table[o]@.contains(h) ==> voted_before(
            mix,
            occ,
            tmap,
            k,
            j,
            o as int,
            h,
        )
    &&& forall|o: int, h: u32|
        #[trigger] voted_before(mix, occ, tmap, k, j, o, h) ==> table.contains_key(o as i64)
            && table[o as i64]@.contains(h)
}

/// Adding the vote of `(k, j)` for offset `o` by hash `h` to the table.
proof fn lemma_votes_add(
    mix: Seq<(u32, u32)>,
    occ: Map<u32, u32>,
    tmap: Map<u32, Vec<u32>>,
    k: int,
    j: int,
    o: i64,
    h: u32,
    order: Seq<i64>,
    table: Map<i64, Vec<u32>>,
    order2: Seq<i64>,
    table2: Map<i64, Vec<u32>>,
)
    requires
        votes_table_inv(mix, occ, tmap, k, j, order, table),
        vote_at(mix, occ, tmap, k, j, o as int, h),
        forall|p: int, g: u32| #[trigger] vote_at(mix, occ, tmap, k, j, p, g) ==> p == o && g == h,
        table.contains_key(o) ==> order2 == order,
        !table.contains_key(o) ==> order2 == order.push(o),
        table2.dom() == table.dom().insert(o),
        forall|p: i64| p != o && #[trigger] table.contains_key(p) ==> table2[p] == table[p],
        table.contains_key(o) && table[o]@.contains(h) ==> table2[o]@ == table[o]@,
        table.contains_key(o) && !table[o]@.contains(h) ==> table2[o]@ == table[o]@.push(h),
        !table.contains_key(o) ==> table2[o]@ == seq![h],
    ensures
        votes_table_inv(mix, occ, tmap, k, j + 1, order2, table2),
{
    assert forall|p: i64| #[trigger] table2.contains_key(p) <==> order2.contains(p) by {
        if p == o {
            if !table.contains_key(o) {
                assert(order2[order2.len() - 1] == o);
            }
        } else if !table.contains_key(o) {
            if order2.contains(p) {
                let q = choose|q: int| 0 <= q < order2.len() && order2[q] == p;
                assert(order[q] == p);
            }
            if order.contains(p) {
                let q = choose|q: int| 0 <= q < order.len() && order[q] == p;
                assert(order2[q] == p);
            }
        }
    }
    assert(order2.no_duplicates()) by {
        if !table.contains_key(o) {
            assert(!order.contains(o));
        }
    }
    assert forall|p: i64| #[trigger] table2.contains_key(p) implies table2[p]@.len() > 0 by {
        if p == o && table.contains_key(o) && !table[o]@.contains(h) {
            assert(table2[o]@ == table[o]@.push(h));
        }
    }
    assert forall|p: i64| #[trigger] table2.contains_key(p) implies table2[p]@.no_duplicates() by {
        if p == o && table.contains_key(o) && !table[o]@.contains(h) {
            assert(table2[o]@ == table[o]@.push(h));
        }
    }
    assert forall|p: i64, g: u32|
        table2.contains_key(p) && #[trigger] table2[p]@.contains(g) implies voted_before(
        mix,
        occ,
        tmap,
        k,
        j + 1,
        p as int,
        g,
    ) by {
        lemma_voted_step(mix, occ, tmap, k, j, p as int, g);
        if p == o {
            if g != h {
                let q = choose|q: int| 0 <= q < table2[o]@.len() && table2[o]@[q] == g;
                if table.contains_key(o) {
                    if !table[o]@.contains(h) {
                        assert(q < table[o]@.len());
                    }
                    assert(table[o]@[q] == g);
                    assert(table[o]@.contains(g));
                } else {
                    assert(table2[o]@[q] == h);
                }
            }
        }
    }
    assert forall|p: int, g: u32| #[trigger] voted_before(mix, occ, tmap, k, j + 1, p, g) implies table2.contains_key(
        p as i64,
    ) && table2[p as i64]@.contains(g) by {
        lemma_voted_step(mix, occ, tmap, k, j, p, g);
        if vote_at(mix, occ, tmap, k, j, p, g) {
            assert(p == o && g == h);
            if table.contains_key(o) {
                if !table[o]@.contains(h) {
                    assert(table2[o]@[table2[o]@.len() - 1] == h);
                }
            } else {
                assert(table2[o]@[0] == h);
            }
        } else {
            assert(voted_before(mix, occ, tmap, k, j, p, g));
            let pp = p as i64;
            assert(table.contains_key(pp) && table[pp]@.contains(g));
            if pp == o {
                let q = choose|q: int| 0 <= q < table[o]@.len() && table[o]@[q] == g;
                if table[o]@.contains(h) {
                } else {
                    assert(table2[o]@[q] == g);
                }
            }
        }
    }
}

/// The votes of the mix against a track index: each offset that some mix
/// hash votes for, once, with the distinct hashes voting for it; no offset
/// without a vote is listed.
pub fn offset_votes(
    mix: &Fingerprint,
    tmap: &HashMap<u32, Vec<u32>>,
    occ: &HashMap<u32, u32>,
) -> (votes: Vec<(i64, Vec<u32>)>)
    ensures
        forall|a: int, b: int| 0 <= a < b < votes@.len() ==> #[trigger] votes@[a].0 != #[trigger] votes@[b].0,
        forall|a: int| 0 <= a < votes@.len() ==> (#[trigger] votes@[a]).1@.no_duplicates(),
        forall|a: int| 0 <= a < votes@.len() ==> (#[trigger] votes@[a]).1@.len() > 0,
        forall|a: int, h: u32|
            0 <= a < votes@.len() ==> ((#[trigger] votes@[a].1@.contains(h)) <==> votes_for(
                mix.hashes@,
                occ@,
                tmap@,
                votes@[a].0 as int,
                h,
            )),
        forall|o: int, h: u32|
            #[trigger] votes_for(mix.hashes@, occ@, tmap@, o, h) ==> exists|a: int|
                0 <= a < votes@.len() && (#[trigger] votes@[a]).0 == o,
{
    let hs = &mix.hashes;
    let n = hs.len();
    let ghost m = hs@;
    let mut order: Vec<i64> = Vec::new();
    let mut table: HashMap<i64, Vec<u32>> = HashMap::new();
    let mut k: usize = 0;
    while k < n
        invariant
            k <= n == hs.len(),
            m == hs@,
            votes_table_inv(m, occ@, tmap@, k as int, 0, order@, table@),
        decreases n - k,
    {
        let (h, tm) = hs[k];
        let skip = match occ.get(&h) {
            Some(c) => *c > MAX_MIX_HASH_OCCURRENCES,
            None => false,
        };
        let ts_opt = if skip {
            None
        } else {
            tmap.get(&h)
        };
        match ts_opt {
            None => {
                proof {
                    assert forall|o: int, g: u32| #![trigger voted_before(m, occ@, tmap@, k + 1, 0, o, g)]
                        voted_before(m, occ@, tmap@, k + 1, 0, o, g) == voted_before(
                        m,
                        occ@,
                        tmap@,
                        k as int,
                        0,
                        o,
                        g,
                    ) by {
                        assert forall|j: int| j >= 0 implies !#[trigger] vote_at(m, occ@, tmap@, k as int, j, o, g) by {
                            if vote_at(m, occ@, tmap@, k as int, j, o, g) {
                                assert(m[k as int].0 == h && g == h);
                            }
                        }
                        lemma_voted_next(m, occ@, tmap@, k as int, 0, o, g);
                    }
                }
            },
            Some(ts) => {
                let tl = ts.len();
                let mut j: usize = 0;
                while j < tl
                    invariant
                        j <= tl == ts.len(),
                        k < n == hs.len(),
                        m == hs@,
                        (h, tm) == m[k as int],
                        !too_common(occ@, h),
                        tmap@.contains_key(h),
                        tmap@[h]@ == ts@,
                        votes_table_inv(m, occ@, tmap@, k as int, j as int, order@, table@),
                    decreases tl - j,
                {
                    let o: i64 = tm as i64 - ts[j] as i64;
                    let ghost old_table = table@;
                    let ghost old_order = order@;
                    assert(vote_at(m, occ@, tmap@, k as int, j as int, o as int, h));
                    match table.remove(&o) {
                        Some(mut v) => {
                            if !vec_contains(&v, h) {
                                v.push(h);
                            }
                            table.insert(o, v);
                        },
                        None => {
                            order.push(o);
                            let mut v: Vec<u32> = Vec::new();
                            v.push(h);
                            table.insert(o, v);
                        },
                    }
                    proof {
                        assert(table@.dom() =~= old_table.dom().insert(o));
                        lemma_votes_add(
                            m,
                            occ@,
                            tmap@,
                            k as int,
                            j as int,
                            o,
                            h,
                            old_order,
                            old_table,
                            order@,
                            table@,
                        );
                    }
                    j = j + 1;
                }
                proof {
                    assert forall|o: int, g: u32| #![trigger voted_before(m, occ@, tmap@, k + 1, 0, o, g)]
                        voted_before(m, occ@, tmap@, k + 1, 0, o, g) == voted_before(
                        m,
                        occ@,
                        tmap@,
                        k as int,
                        tl as int,
                        o,
                        g,
                    ) by {
                        lemma_voted_next(m, occ@, tmap@, k as int, tl as int, o, g);
                    }
                }
            },
        }
        k = k + 1;
    }
    let mut votes: Vec<(i64, Vec<u32>)> = Vec::new();
    let mut a: usize = 0;
    while a < order.len()
        invariant
            a <= order.len(),
            votes_table_inv(m, occ@, tmap@, n as int, 0, order@, table@),
            votes@.len() == a,
            forall|b: int| 0 <= b < a ==> (#[trigger] votes@[b]).0 == order@[b] && votes@[b].1@ == table@[order@[b]]@,
        decreases order.len() - a,
    {
        let o = order[a];
        assert(order@.contains(o));
        let v = table.get(&o).unwrap().clone();
        votes.push((o, v));
        a = a + 1;
    }
    proof {
        assert forall|o: int, h: u32| #[trigger] votes_for(m, occ@, tmap@, o, h) implies exists|b: int|
            0 <= b < votes@.len() && (#[trigger] votes@[b]).0 == o by {
            let (k2, j2) = choose|k2: int, j2: int| #[trigger] vote_at(m, occ@, tmap@, k2, j2, o, h);
            assert(vote_at(m, occ@, tmap@, k2, j2, o, h) && (k2 < n || (k2 == n && j2 < 0)));
            assert(voted_before(m, occ@, tmap@, n as int, 0, o, h));
            let oo = o as i64;
            assert(table@.contains_key(oo));
            assert(order@.contains(oo));
            let q = choose|q: int| 0 <= q < order@.len() && order@[q] == oo;
            assert(votes@[q].0 == o);
        }
        assert forall|b: int, h: u32| 0 <= b < votes@.len() implies ((#[trigger] votes@[b].1@.contains(h))
            <==> votes_for(m, occ@, tmap@, votes@[b].0 as int, h)) by {
            let o = order@[b];
            assert(order@.contains(o));
            if votes_for(m, occ@, tmap@, o as int, h) {
                let (k2, j2) = choose|k2: int, j2: int| #[trigger] vote_at(m, occ@, tmap@, k2, j2, o as int, h);
                assert(vote_at(m, occ@, tmap@, k2, j2, o as int, h) && (k2 < n || (k2 == n && j2 < 0)));
                assert(voted_before(m, occ@, tmap@, n as int, 0, o as int, h));
            }
            if votes@[b].1@.contains(h) {
                assert(voted_before(m, occ@, tmap@, n as int, 0, o as int, h));
                let (k2, j2) = choose|k2: int, j2: int|
                    #[trigger] vote_at(m, occ@, tmap@, k2, j2, o as int, h) && (k2 < n || (k2 == n && j2 < 0));
            }
        }
        assert forall|b: int| 0 <= b < votes@.len() implies (#[trigger] votes@[b]).1@.len() > 0 by {
            assert(order@.contains(order@[b]));
            assert(table@.contains_key(order@[b]));
        }
        assert forall|b: int| 0 <= b < votes@.len() implies (#[trigger] votes@[b]).1@.no_duplicates() by {
            assert(order@.contains(order@[b]));
            assert(table@.contains_key(order@[b]));
        }
        assert forall|x: int, y: int| 0 <= x < y < votes@.len() implies #[trigger] votes@[x].0 != #[trigger] votes@[y].0 by {
            assert(order@[x] != order@[y]);
        }
    }
    votes
}

/// Mix entry `k` lines up with the track at offset `core`.
pub open spec fn matches_at(
    mix: Seq<(u32, u32)>,
    occ: Map<u32, u32>,
    tmap: Map<u32, Vec<u32>>,
    core: int,
    k: int,
) -> bool {
    exists|j: int| #[trigger] vote_at(mix, occ, tmap, k, j, core, mix[k].0)
}

/// The matched `(mix_frame, hash)` pairs at offset `core` among the first
/// `n` mix entries, in mix order.
pub open spec fn matched_upto(
    mix: Seq<(u32, u32)>,
    occ: Map<u32, u32>,
    tmap: Map<u32, Vec<u32>>,
    core: int,
    n: int,
) -> Seq<(u32, u32)>
    decreases n,
{
    if n <= 0 {
        Seq::<(u32, u32)>::empty()
    } else if matches_at(mix, occ, tmap, core, n - 1) {
        matched_upto(mix, occ, tmap, core, n - 1).push((mix[n - 1].1, mix[n - 1].0))
    } else {
        matched_upto(mix, occ, tmap, core, n - 1)
    }
}

/// The frames of a list of pairs, as sort keys.
pub open spec fn time_keys(u: Seq<(u32, u32)>) -> Seq<i128> {
    u.map_values(|p: (u32, u32)| p.0 as i128)
}

/// `r` is `u` stably sorted by frame.
pub open spec fn is_sorted_by_time(u: Seq<(u32, u32)>, r: Seq<(u32, u32)>) -> bool {
    exists|p: Seq<usize>|
        #[trigger] is_stable_order(time_keys(u), p) && r.len() == u.len() && forall|i: int|
            0 <= i < r.len() ==> #[trigger] r[i] == u[p[i] as int]
}

/// Frames never decrease along `r`.
pub open spec fn time_ordered(r: Seq<(u32, u32)>) -> bool {
    forall|a: int, b: int| 0 <= a < b < r.len() ==> #[trigger] r[a].0 <= #[trigger] r[b].0
}

fn has_offset(ts: &Vec<u32>, tm: u32, core: i64) -> (b: bool)
    ensures
        b == exists|j: int| 0 <= j < ts@.len() && tm - ts@[j] == core,
{
    let mut i: usize = 0;
    while i < ts.len()
        invariant
            i <= ts.len(),
            forall|j: int| 0 <= j < i ==> tm - ts@[j] != core,
        decreases ts.len() - i,
    {
        if tm as i64 - ts[i] as i64 == core {
            return true;
        }
        i = i + 1;
    }
    false
}

/// The `(mix_frame, hash)` pairs that line up at offset `core`, sorted by
/// mix frame (stably, so equal frames keep mix order).
pub fn matched_pairs(
    mix: &Fingerprint,
    tmap: &HashMap<u32, Vec<u32>>,
    occ: &HashMap<u32, u32>,
    core: i64,
) -> (r: Vec<(u32, u32)>)
    ensures
        is_sorted_by_time(
            matched_upto(mix.hashes@, occ@, tmap@, core as int, mix.hashes@.len() as int),
            r@,
        ),
        time_ordered(r@),
{
    let hs = &mix.hashes;
    let n = hs.len();
    let ghost m = hs@;
    let mut u: Vec<(u32, u32)> = Vec::new();
    let mut k: usize = 0;
    while k < n
        invariant
            k <= n == hs.len(),
            m == hs@,
            u@ == matched_upto(m, occ@, tmap@, core as int, k as int),
        decreases n - k,
    {
        let (h, tm) = hs[k];
        let skip = match occ.get(&h) {
            Some(c) => *c > MAX_MIX_HASH_OCCURRENCES,
            None => false,
        };
        let mut hit = false;
        if !skip {
            match tmap.get(&h) {
                Some(ts) => {
                    hit = has_offset(ts, tm, core);
                    proof {
                        if hit {
                            let j = choose|j: int| 0 <= j < ts@.len() && tm - ts@[j] == core;
                            assert(vote_at(m, occ@, tmap@, k as int, j, core as int, h));
                        }
                    }
                },
                None => {},
            }
        }
        proof {
            if matches_at(m, occ@, tmap@, core as int, k as int) {
                let j = choose|j: int| #[trigger] vote_at(m, occ@, tmap@, k as int, j, core as int, m[k as int].0);
                assert(hit);
            }
        }
        if hit {
            u.push((tm, h));
        }
        k = k + 1;
    }
    let mut keys: Vec<i128> = Vec::new();
    let mut i: usize = 0;
    while i < u.len()
        invariant
            i <= u.len(),
            keys@ =~= time_keys(u@).take(i as int),
        decreases u.len() - i,
    {
        keys.push(u[i].0 as i128);
        i = i + 1;
    }
    assert(keys@ =~= time_keys(u@));
    let p = stable_order(&keys);
    let mut r: Vec<(u32, u32)> = Vec::new();
    let mut i: usize = 0;
    while i < p.len()
        invariant
            i <= p.len() == u.len() == keys.len(),
            is_stable_order(keys@, p@),
            r.len() == i,
            forall|t: int| 0 <= t < i ==> #[trigger] r@[t] == u@[p@[t] as int],
        decreases p.len() - i,
    {
        r.push(u[p[i]]);
        i = i + 1;
    }
    proof {
        assert(is_stable_order(time_keys(u@), p@));
        assert forall|a: int, b: int| 0 <= a < b < r@.len() implies #[trigger] r@[a].0 <= #[trigger] r@[b].0 by {
            assert(key_before(keys@, p@[a] as int, p@[b] as int));
        }
    }
    r
}

/// Runs of a list of `(frame, hash)` pairs: `(start, end)` index ranges, split
/// where consecutive frames are more than `RUN_GAP_TOL` apart. Fewer than
/// two pairs make no runs at all.
pub open spec fn is_run_split(pairs: Seq<(u32, u32)>, runs: Seq<(usize, usize)>) -> bool {
    if pairs.len() < 2 {
        runs.len() == 0
    } else {
        &&& runs.len() > 0
        &&& runs[0].0 == 0
        &&& runs.last().1 == pairs.len()
        &&& forall|r: int| 0 <= r < runs.len() ==> (#[trigger] runs[r]).0 < runs[r].1
        &&& forall|r: int| 0 <= r < runs.len() - 1 ==> (#[trigger] runs[r]).1 == runs[r + 1].0
        &&& forall|r: int, i: int|
            #![trigger runs[r], pairs[i]]
            0 <= r < runs.len() && runs[r].0 < i < runs[r].1 ==> pairs[i].0 - pairs[i - 1].0
                <= RUN_GAP_TOL
        &&& forall|r: int|
            0 <= r < runs.len() - 1 ==> pairs[(#[trigger] runs[r]).1 as int].0 - pairs[runs[r].1
                - 1].0 > RUN_GAP_TOL
    }
}

/// Split the matched pairs at one offset into contiguous runs.
pub fn split_runs(pairs: &Vec<(u32, u32)>) -> (runs: Vec<(usize, usize)>)
    ensures
        is_run_split(pairs@, runs@),
{
    let n = pairs.len();
    let mut runs: Vec<(usize, usize)> = Vec::new();
    if n < 2 {
        return runs;
    }
    let mut run_start: usize = 0;
    let mut idx: usize = 1;
    while idx < n
        invariant
            2 <= n == pairs.len(),
            run_start < idx <= n,
            runs.len() == 0 ==> run_start == 0,
            runs.len() > 0 ==> runs@[0].0 == 0 && runs@.last().1 == run_start,
            forall|r: int| 0 <= r < runs.len() ==> (#[trigger] runs@[r]).0 < runs@[r].1,
            forall|r: int| 0 <= r < runs.len() - 1 ==> (#[trigger] runs@[r]).1 == runs@[r + 1].0,
            forall|r: int, i: int|
                #![trigger runs@[r], pairs@[i]]
                0 <= r < runs.len() && runs@[r].0 < i < runs@[r].1 ==> pairs@[i].0 - pairs@[i - 1].0
                    <= RUN_GAP_TOL,
            forall|r: int|
                0 <= r < runs.len() ==> pairs@[(#[trigger] runs@[r]).1 as int].0 - pairs@[runs@[r].1
                    - 1].0 > RUN_GAP_TOL,
            forall|i: int| run_start < i < idx ==> #[trigger] pairs@[i].0 - pairs@[i - 1].0 <= RUN_GAP_TOL,
        decreases n - idx,
    {
        if pairs[idx].0 as i64 - pairs[idx - 1].0 as i64 > RUN_GAP_TOL as i64 {
            runs.push((run_start, idx));
            run_start = idx;
        }
        idx = idx + 1;
    }
    runs.push((run_start, n));
    runs
}

/// The distinct matched frames of a run, in order (`Vec::dedup` of its frames).
pub open spec fn run_times(run: Seq<(u32, u32)>) -> Seq<u32>
    decreases run.len(),
{
    if run.len() == 0 {
        Seq::<u32>::empty()
    } else {
        let p = run_times(run.drop_last());
        if p.len() > 0 && p.last() == run.last().0 {
            p
        } else {
            p.push(run.last().0)
        }
    }
}

/// Number of `times` in trimming bucket `b` (buckets of `BUCKET_FRAMES`
/// frames counted from `t0`).
pub open spec fn bucket_count(times: Seq<u32>, t0: int, b: int) -> nat
    decreases times.len(),
{
    if times.len() == 0 {
        0
    } else {
        bucket_count(times.drop_last(), t0, b) + (if (times.last() - t0) / (BUCKET_FRAMES as int)
            == b {
            1nat
        } else {
            0nat
        })
    }
}

/// The largest of the first `nb` bucket counts.
pub open spec fn peak_count(times: Seq<u32>, t0: int, nb: int) -> nat
    decreases nb,
{
    if nb <= 0 {
        0
    } else {
        let before = peak_count(times, t0, nb - 1);
        let c = bucket_count(times, t0, nb - 1);
        if c > before {
            c
        } else {
            before
        }
    }
}

/// Bucket `b` holds less than a quarter of the peak bucket count.
pub open spec fn weak_bucket(times: Seq<u32>, t0: int, peak: nat, b: int) -> bool {
    4 * bucket_count(times, t0, b) < peak
}

/// First bucket kept when trimming the leading edge from bucket `b` on:
/// weak buckets are dropped while at least one bucket remains after them.
pub open spec fn trim_lead(times: Seq<u32>, t0: int, peak: nat, nb: int, b: int) -> int
    decreases nb - b,
{
    if b + 1 < nb && weak_bucket(times, t0, peak, b) {
        trim_lead(times, t0, peak, nb, b + 1)
    } else {
        b
    }
}

/// Last bucket kept when trimming the trailing edge back from bucket `e`:
/// weak buckets are dropped while more than one bucket follows `sb`.
pub open spec fn trim_tail(times: Seq<u32>, t0: int, peak: nat, sb: int, e: int) -> int
    decreases e,
{
    if e > sb + 1 && e > 0 && weak_bucket(times, t0, peak, e) {
        trim_tail(times, t0, peak, sb, e - 1)
    } else {
        e
    }
}

/// Number of `times` below `x`.
pub open spec fn count_below(times: Seq<u32>, x: int) -> nat
    decreases times.len(),
{
    if times.len() == 0 {
        0
    } else {
        count_below(times.drop_last(), x) + (if times.last() < x {
            1nat
        } else {
            0nat
        })
    }
}

/// The trimmed span of a run, as first and last matched frame, or `None` when
/// the run is rejected: after adaptive edge trimming (buckets of about 2 s,
/// edges holding under a quarter of the peak bucket dropped) at most two
/// matched frames remain, or they cover under a quarter of the frames of
/// their span.
pub open spec fn trimmed_span(run: Seq<(u32, u32)>) -> Option<(u32, u32)> {
    let times = run_times(run);
    let t0 = times[0] as int;
    let nb = (times.last() - t0) / (BUCKET_FRAMES as int) + 1;
    let peak = peak_count(times, t0, nb);
    let sb = trim_lead(times, t0, peak, nb, 0);
    let eb = trim_tail(times, t0, peak, sb, nb - 1);
    let lo = t0 + sb * (BUCKET_FRAMES as int);
    let hi = t0 + (eb + 1) * (BUCKET_FRAMES as int);
    let s = count_below(times, lo) as int;
    let below_hi = count_below(times, hi) as int;
    let e = if below_hi > 0 {
        below_hi - 1
    } else {
        0
    };
    if e <= s + 1 {
        None
    } else {
        let matched = e - s + 1;
        let span = if times[e] - times[s] > 1 {
            times[e] - times[s]
        } else {
            1
        };
        if (MIN_DENSITY_INV as int) * matched < span {
            None
        } else {
            Some((times[s], times[e]))
        }
    }
}

/// The distinct hashes of a run matched at frames `a..=b`.
pub open spec fn span_hashes(run: Seq<(u32, u32)>, a: int, b: int) -> Set<u32> {
    Set::new(
        |h: u32|
            exists|i: int| 0 <= i < run.len() && (#[trigger] run[i]).1 == h && a <= run[i].0 <= b,
    )
}

/// A run trimmed to its dense core: first and last matched frame, and the
/// distinct hashes matched in between.
pub struct TrimmedRun {
    pub first: u32,
    pub last: u32,
    pub hashes: Vec<u32>,
}

proof fn lemma_run_times(run: Seq<(u32, u32)>)
    requires
        time_ordered(run),
    ensures
        run.len() > 0 ==> run_times(run).len() > 0 && run_times(run)[0] == run[0].0
            && run_times(run).last() == run.last().0,
        forall|a: int, b: int|
            0 <= a < b < run_times(run).len() ==> #[trigger] run_times(run)[a] < #[trigger] run_times(
                run,
            )[b],
        run_times(run).len() <= run.len(),
    decreases run.len(),
{
    if run.len() > 0 {
        let d = run.drop_last();
        assert(time_ordered(d)) by {
            assert forall|a: int, b: int| 0 <= a < b < d.len() implies #[trigger] d[a].0 <= #[trigger] d[b].0 by {
                assert(d[a] == run[a] && d[b] == run[b]);
            }
        }
        lemma_run_times(d);
        if d.len() > 0 {
            assert(d[0] == run[0]);
            assert(d.last() == run[run.len() - 2]);
            assert(run[run.len() - 2].0 <= run.last().0);
        }
    }
}

proof fn lemma_bucket_count_step(times: Seq<u32>, t0: int, i: int, b: int)
    requires
        0 <= i < times.len(),
    ensures
        bucket_count(times.take(i + 1), t0, b) == bucket_count(times.take(i), t0, b) + (if (times[i]
            - t0) / (BUCKET_FRAMES as int) == b {
            1nat
        } else {
            0nat
        }),
{
    assert(times.take(i + 1).drop_last() =~= times.take(i));
}

proof fn lemma_count_below_step(times: Seq<u32>, x: int, i: int)
    requires
        0 <= i < times.len(),
    ensures
        count_below(times.take(i + 1), x) == count_below(times.take(i), x) + (if times[i] < x {
            1nat
        } else {
            0nat
        }),
{
    assert(times.take(i + 1).drop_last() =~= times.take(i));
}

proof fn lemma_count_below_bound(times: Seq<u32>, x: int)
    ensures
        count_below(times, x) <= times.len(),
    decreases times.len(),
{
    if times.len() > 0 {
        lemma_count_below_bound(times.drop_last(), x);
    }
}

proof fn lemma_bucket_count_bound(times: Seq<u32>, t0: int, b: int)
    ensures
        bucket_count(times, t0, b) <= times.len(),
    decreases times.len(),
{
    if times.len() > 0 {
        lemma_bucket_count_bound(times.drop_last(), t0, b);
    }
}

fn count_frames_below(times: &Vec<u32>, x: u64) -> (c: usize)
    ensures
        c == count_below(times@, x as int),
{
    let mut c: usize = 0;
    let mut i: usize = 0;
    while i < times.len()
        invariant
            i <= times.len(),
            c == count_below(times@.take(i as int), x as int),
            c <= i,
        decreases times.len() - i,
    {
        proof {
            lemma_count_below_step(times@, x as int, i as int);
        }
        if (times[i] as u64) < x {
            c = c + 1;
        }
        i = i + 1;
    }
    assert(times@.take(i as int) =~= times@);
    c
}

/// Trim one contiguous run of matched `(mix_frame, hash)` pairs to its dense
/// core; `None` when too little of it remains.
pub fn trim_run(run: &[(u32, u32)]) -> (res: Option<TrimmedRun>)
    requires
        run@.len() > 0,
        time_ordered(run@),
    ensures
        match res {
            None => trimmed_span(run@) is None,
            Some(tr) => {
                &&& trimmed_span(run@) == Some((tr.first, tr.last))
                &&& tr.hashes@.no_duplicates()
                &&& tr.hashes@.to_set() == span_hashes(run@, tr.first as int, tr.last as int)
            },
        },
{
    let ghost rs = run@;
    // unique matched frames
    let mut times: Vec<u32> = Vec::new();
    let mut i: usize = 0;
    while i < run.len()
        invariant
            i <= run@.len(),
            rs == run@,
            times@ == run_times(rs.take(i as int)),
        decreases run@.len() - i,
    {
        let t = run[i].0;
        assert(rs.take(i + 1).drop_last() =~= rs.take(i as int));
        if times.len() == 0 || times[times.len() - 1] != t {
            times.push(t);
        }
        i = i + 1;
    }
    assert(rs.take(run@.len() as int) =~= rs);
    proof {
        lemma_run_times(rs);
    }
    let ghost ts = times@;
    let nt = times.len();
    let t0 = times[0];
    let tl = times[nt - 1];
    assert(t0 <= tl) by {
        if nt > 1 {
            assert(ts[0] < ts[nt - 1]);
        }
    }
    let nb: usize = ((tl - t0) / BUCKET_FRAMES) as usize + 1;
    // bucket counts
    let mut counts: Vec<usize> = Vec::new();
    let mut b: usize = 0;
    while b < nb
        invariant
            b <= nb,
            counts.len() == b,
            forall|q: int| 0 <= q < b ==> #[trigger] counts@[q] == 0,
        decreases nb - b,
    {
        counts.push(0);
        b = b + 1;
    }
    let mut i: usize = 0;
    while i < nt
        invariant
            i <= nt == times.len(),
            ts == times@,
            t0 == ts[0],
            tl == ts[nt - 1],
            nb == (tl - t0) / (BUCKET_FRAMES as int) + 1,
            forall|a: int, c: int| 0 <= a < c < nt ==> #[trigger] ts[a] < #[trigger] ts[c],
            counts.len() == nb,
            forall|q: int| 0 <= q < nb ==> #[trigger] counts@[q] == bucket_count(ts.take(i as int), t0 as int, q),
            forall|q: int| 0 <= q < nb ==> #[trigger] counts@[q] <= i,
        decreases nt - i,
    {
        let t = times[i];
        assert(t0 <= t <= tl) by {
            if i > 0 {
                assert(ts[0] < ts[i as int]);
            }
            if i < nt - 1 {
                assert(ts[i as int] < ts[nt - 1]);
            }
        }
        let q = ((t - t0) / BUCKET_FRAMES) as usize;
        counts.set(q, counts[q] + 1);
        proof {
            assert forall|qq: int| 0 <= qq < nb implies #[trigger] counts@[qq] == bucket_count(
                ts.take(i + 1),
                t0 as int,
                qq,
            ) by {
                lemma_bucket_count_step(ts, t0 as int, i as int, qq);
            }
        }
        i = i + 1;
    }
    assert(ts.take(nt as int) =~= ts);
    // peak bucket
    let mut peak: usize = 0;
    let mut b: usize = 0;
    while b < nb
        invariant
            b <= nb == counts.len(),
            forall|q: int| 0 <= q < nb ==> #[trigger] counts@[q] == bucket_count(ts, t0 as int, q),
            peak == peak_count(ts, t0 as int, b as int),
        decreases nb - b,
    {
        if counts[b] > peak {
            peak = counts[b];
        }
        b = b + 1;
    }
    proof {
        lemma_bucket_count_bound(ts, t0 as int, 0);
    }
    // trim leading weak buckets
    let mut sb: usize = 0;
    while sb + 1 < nb && 4 * (counts[sb] as u128) < peak as u128
        invariant
            sb < nb == counts.len(),
            forall|q: int| 0 <= q < nb ==> #[trigger] counts@[q] == bucket_count(ts, t0 as int, q),
            trim_lead(ts, t0 as int, peak as nat, nb as int, 0) == trim_lead(
                ts,
                t0 as int,
                peak as nat,
                nb as int,
                sb as int,
            ),
        decreases nb - sb,
    {
        sb = sb + 1;
    }
    // trim trailing weak buckets
    let mut eb: usize = nb - 1;
    while eb > sb + 1 && 4 * (counts[eb] as u128) < peak as u128
        invariant
            sb < nb == counts.len(),
            eb < nb,
            forall|q: int| 0 <= q < nb ==> #[trigger] counts@[q] == bucket_count(ts, t0 as int, q),
            trim_tail(ts, t0 as int, peak as nat, sb as int, nb - 1) == trim_tail(
                ts,
                t0 as int,
                peak as nat,
                sb as int,
                eb as int,
            ),
        decreases eb,
    {
        eb = eb - 1;
    }
    let lo: u64 = t0 as u64 + (sb as u64) * (BUCKET_FRAMES as u64);
    let hi: u64 = t0 as u64 + (eb as u64 + 1) * (BUCKET_FRAMES as u64);
    let s = count_frames_below(&times, lo);
    let below_hi = count_frames_below(&times, hi);
    proof {
        lemma_count_below_bound(ts, lo as int);
        lemma_count_below_bound(ts, hi as int);
    }
    let e = if below_hi > 0 {
        below_hi - 1
    } else {
        0
    };
    if e <= s || e - s <= 1 {
        return None;
    }
    let matched = e - s + 1;
    assert(ts[s as int] < ts[e as int]);
    let span: u32 = if times[e] - times[s] > 1 {
        times[e] - times[s]
    } else {
        1
    };
    if (MIN_DENSITY_INV as u128) * (matched as u128) < span as u128 {
        return None;
    }
    let first = times[s];
    let last = times[e];
    // distinct hashes within the trimmed span
    let mut hashes: Vec<u32> = Vec::new();
    let mut i: usize = 0;
    while i < run.len()
        invariant
            i <= run@.len(),
            rs == run@,
            hashes@.no_duplicates(),
            forall|h: u32| #[trigger] hashes@.contains(h) <==> exists|k: int|
                0 <= k < i && (#[trigger] rs[k]).1 == h && first <= rs[k].0 <= last,
        decreases run@.len() - i,
    {
        let (t, h) = run[i];
        let ghost old_h = hashes@;
        let inside = first <= t && t <= last;
        let mut pushed = false;
        if inside && !vec_contains(&hashes, h) {
            hashes.push(h);
            pushed = true;
        }
        proof {
            assert(rs[i as int] == (t, h));
            assert forall|g: u32| #[trigger] hashes@.contains(g) <==> exists|k: int|
                0 <= k < i + 1 && (#[trigger] rs[k]).1 == g && first <= rs[k].0 <= last by {
                if hashes@.contains(g) {
                    let q = choose|q: int| 0 <= q < hashes@.len() && hashes@[q] == g;
                    if pushed && q == old_h.len() {
                        assert(g == h);
                        assert(0 <= i < i + 1 && rs[i as int].1 == g && first <= rs[i as int].0 <= last);
                    } else {
                        assert(old_h[q] == g);
                        assert(old_h.contains(g));
                        let k = choose|k: int| 0 <= k < i && (#[trigger] rs[k]).1 == g && first <= rs[k].0 <= last;
                        assert(0 <= k < i + 1 && rs[k].1 == g && first <= rs[k].0 <= last);
                    }
                }
                if exists|k: int| 0 <= k < i + 1 && (#[trigger] rs[k]).1 == g && first <= rs[k].0 <= last {
                    let k = choose|k: int| 0 <= k < i + 1 && (#[trigger] rs[k]).1 == g && first <= rs[k].0 <= last;
                    if k == i {
                        assert(g == h && inside);
                        if pushed {
                            assert(hashes@[old_h.len() as int] == g);
                        } else {
                            assert(old_h.contains(h));
                            let q = choose|q: int| 0 <= q < old_h.len() && old_h[q] == g;
                            assert(hashes@[q] == g);
                        }
                    } else {
                        assert(0 <= k < i && rs[k].1 == g && first <= rs[k].0 <= last);
                        assert(old_h.contains(g));
                        let q = choose|q: int| 0 <= q < old_h.len() && old_h[q] == g;
                        if pushed {
                            assert(hashes@[q] == g);
                        }
                    }
                }
            }
            if pushed {
                assert(!old_h.contains(h));
                assert(hashes@ == old_h.push(h));
            }
        }
        i = i + 1;
    }
    proof {
        assert(hashes@.to_set() =~= span_hashes(rs, first as int, last as int)) by {
            assert forall|h: u32| hashes@.to_set().contains(h) <==> span_hashes(rs, first as int, last as int).contains(h) by {
                if span_hashes(rs, first as int, last as int).contains(h) {
                    let k = choose|k: int| 0 <= k < rs.len() && (#[trigger] rs[k]).1 == h && first <= rs[k].0 <= last;
                    assert(hashes@.contains(h));
                }
            }
        }
    }
    Some(TrimmedRun { first, last, hashes })
}

/// Sampling keeps at most eight occurrence times, each one a real
/// occurrence, and keeps all of them when there are at most eight.
pub proof fn lemma_stride_sampled_shape(ts: Seq<u32>)
    ensures
        stride_sampled(ts).len() <= MAX_HASH_OCCURRENCES,
        ts.len() <= MAX_HASH_OCCURRENCES ==> stride_sampled(ts) == ts,
        forall|i: int| 0 <= i < stride_sampled(ts).len() ==> ts.contains(#[trigger] stride_sampled(ts)[i]),
{
    if ts.len() > MAX_HASH_OCCURRENCES {
        assert forall|i: int| 0 <= i < stride_sampled(ts).len() implies ts.contains(#[trigger] stride_sampled(ts)[i]) by {
            lemma_stride_index(i, ts.len() as int);
            assert(ts[(i * ts.len()) / 8] == stride_sampled(ts)[i]);
        }
    } else {
        assert forall|i: int| 0 <= i < stride_sampled(ts).len() implies ts.contains(#[trigger] stride_sampled(ts)[i]) by {
            assert(ts[i] == stride_sampled(ts)[i]);
        }
    }
}

/// Pair `x` comes from a mix entry before `n` that lines up at `core`.
spec fn matched_from(
    mix: Seq<(u32, u32)>,
    occ: Map<u32, u32>,
    tmap: Map<u32, Vec<u32>>,
    core: int,
    n: int,
    x: (u32, u32),
) -> bool {
    exists|k: int| 0 <= k < n && #[trigger] matches_at(mix, occ, tmap, core, k) && x == (mix[k].1, mix[k].0)
}

proof fn lemma_matched_upto(
    mix: Seq<(u32, u32)>,
    occ: Map<u32, u32>,
    tmap: Map<u32, Vec<u32>>,
    core: int,
    n: int,
)
    requires
        0 <= n <= mix.len(),
    ensures
        forall|i: int| 0 <= i < matched_upto(mix, occ, tmap, core, n).len() ==> matched_from(
            mix, occ, tmap, core, n, #[trigger] matched_upto(mix, occ, tmap, core, n)[i]),
        forall|k: int|
            0 <= k < n && #[trigger] matches_at(mix, occ, tmap, core, k) ==> matched_upto(mix, occ, tmap, core, n).contains(
                (mix[k].1, mix[k].0),
            ),
    decreases n,
{
    if n > 0 {
        lemma_matched_upto(mix, occ, tmap, core, n - 1);
        let prev = matched_upto(mix, occ, tmap, core, n - 1);
        let cur = matched_upto(mix, occ, tmap, core, n);
        assert forall|i: int| 0 <= i < prev.len() implies matched_from(mix, occ, tmap, core, n, #[trigger] prev[i]) by {
            assert(matched_from(mix, occ, tmap, core, n - 1, prev[i]));
            let k = choose|k: int| 0 <= k < n - 1 && #[trigger] matches_at(mix, occ, tmap, core, k) && prev[i] == (mix[k].1, mix[k].0);
        }
        if matches_at(mix, occ, tmap, core, n - 1) {
            assert forall|i: int| 0 <= i < cur.len() implies matched_from(mix, occ, tmap, core, n, #[trigger] cur[i]) by {
                if i < prev.len() {
                    assert(cur[i] == prev[i]);
                } else {
                    assert(cur[i] == (mix[n - 1].1, mix[n - 1].0));
                }
            }
            assert forall|k: int| 0 <= k < n && #[trigger] matches_at(mix, occ, tmap, core, k) implies cur.contains(
                (mix[k].1, mix[k].0),
            ) by {
                if k < n - 1 {
                    let q = choose|q: int| 0 <= q < prev.len() && prev[q] == (mix[k].1, mix[k].0);
                    assert(cur[q] == prev[q]);
                } else {
                    assert(cur[prev.len() as int] == (mix[k].1, mix[k].0));
                }
            }
        } else {
            assert(cur == prev);
        }
    }
}

/// The hashes voting for an offset are exactly the hashes of the pairs
/// matched at that offset.
pub proof fn lemma_votes_are_matched_hashes(
    mix: Seq<(u32, u32)>,
    occ: Map<u32, u32>,
    tmap: Map<u32, Vec<u32>>,
    core: int,
    h: u32,
)
    ensures
        votes_for(mix, occ, tmap, core, h) <==> exists|t: u32|
            #[trigger] matched_upto(mix, occ, tmap, core, mix.len() as int).contains((t, h)),
{
    let n = mix.len() as int;
    lemma_matched_upto(mix, occ, tmap, core, n);
    let u = matched_upto(mix, occ, tmap, core, n);
    if votes_for(mix, occ, tmap, core, h) {
        let (k, j) = choose|k: int, j: int| #[trigger] vote_at(mix, occ, tmap, k, j, core, h);
        assert(matches_at(mix, occ, tmap, core, k));
        assert(u.contains((mix[k].1, h)));
    }
    if exists|t: u32| #[trigger] u.contains((t, h)) {
        let t = choose|t: u32| #[trigger] u.contains((t, h));
        let i = choose|i: int| 0 <= i < u.len() && u[i] == (t, h);
        assert(matched_from(mix, occ, tmap, core, n, u[i]));
        let k = choose|k: int| 0 <= k < n && #[trigger] matches_at(mix, occ, tmap, core, k) && u[i] == (mix[k].1, mix[k].0);
        let j = choose|j: int| #[trigger] vote_at(mix, occ, tmap, k, j, core, mix[k].0);
        assert(vote_at(mix, occ, tmap, k, j, core, h));
    }
}

proof fn lemma_run_times_members(run: Seq<(u32, u32)>)
    ensures
        forall|a: int| 0 <= a < run_times(run).len() ==> exists|i: int|
            0 <= i < run.len() && (#[trigger] run[i]).0 == #[trigger] run_times(run)[a],
    decreases run.len(),
{
    if run.len() > 0 {
        lemma_run_times_members(run.drop_last());
        let p = run_times(run.drop_last());
        assert forall|a: int| 0 <= a < run_times(run).len() implies exists|i: int|
            0 <= i < run.len() && (#[trigger] run[i]).0 == #[trigger] run_times(run)[a] by {
            if a < p.len() {
                let i = choose|i: int| 0 <= i < run.drop_last().len() && (#[trigger] run.drop_last()[i]).0 == p[a];
                assert(run[i] == run.drop_last()[i]);
            } else {
                assert(run[run.len() - 1] == run.last());
            }
        }
    }
}

/// A kept run spans at least three distinct matched frames: its first and
/// last frame are matched frames of the run, the first before the last.
pub proof fn lemma_trimmed_span_shape(run: Seq<(u32, u32)>)
    requires
        run.len() > 0,
        time_ordered(run),
    ensures
        trimmed_span(run) matches Some((a, b)) ==> a < b && (exists|i: int|
            0 <= i < run.len() && (#[trigger] run[i]).0 == a) && (exists|i: int|
            0 <= i < run.len() && (#[trigger] run[i]).0 == b),
{
    lemma_run_times(run);
    lemma_run_times_members(run);
    let times = run_times(run);
    if let Some((a, b)) = trimmed_span(run) {
        let t0 = times[0] as int;
        let nb = (times.last() - t0) / (BUCKET_FRAMES as int) + 1;
        let peak = peak_count(times, t0, nb);
        let sb = trim_lead(times, t0, peak, nb, 0);
        let eb = trim_tail(times, t0, peak, sb, nb - 1);
        let lo = t0 + sb * (BUCKET_FRAMES as int);
        let hi = t0 + (eb + 1) * (BUCKET_FRAMES as int);
        let s = count_below(times, lo) as int;
        let below_hi = count_below(times, hi) as int;
        lemma_count_below_bound(times, hi);
        let e = if below_hi > 0 { below_hi - 1 } else { 0 };
        assert(0 <= s < e < times.len());
        assert(times[s] < times[e]);
        assert(a == times[s] && b == times[e]);
    }
}

/// Hash `h` occurs in `hs` at anchor frame `t`.
spec fn occurs_at(hs: Seq<(u32, u32)>, h: u32, t: u32) -> bool {
    exists|i: int| 0 <= i < hs.len() && (#[trigger] hs[i]).0 == h && hs[i].1 == t
}

/// The anchor frames of hash `h` are as many as its occurrences, and are
/// exactly the frames at which it occurs.
proof fn lemma_times_of_members(hs: Seq<(u32, u32)>, h: u32)
    ensures
        times_of(hs, h).len() == count_hash(hs, h),
        forall|i: int|
            0 <= i < hs.len() && (#[trigger] hs[i]).0 == h ==> times_of(hs, h).contains(hs[i].1),
        forall|a: int|
            0 <= a < times_of(hs, h).len() ==> occurs_at(hs, h, #[trigger] times_of(hs, h)[a]),
    decreases hs.len(),
{
    if hs.len() > 0 {
        let d = hs.drop_last();
        lemma_times_of_members(d, h);
        let p = times_of(d, h);
        let cur = times_of(hs, h);
        assert(hs[hs.len() - 1] == hs.last());
        assert forall|i: int| 0 <= i < hs.len() && (#[trigger] hs[i]).0 == h implies cur.contains(
            hs[i].1,
        ) by {
            if i < hs.len() - 1 {
                assert(d[i] == hs[i]);
                let q = choose|q: int| 0 <= q < p.len() && p[q] == d[i].1;
                assert(cur[q] == p[q]);
            } else {
                assert(cur[p.len() as int] == hs[i].1);
            }
        }
        assert forall|a: int| 0 <= a < cur.len() implies occurs_at(hs, h, #[trigger] cur[a]) by {
            if a < p.len() {
                assert(cur[a] == p[a]);
                assert(occurs_at(d, h, p[a]));
                let i = choose|i: int| 0 <= i < d.len() && (#[trigger] d[i]).0 == h && d[i].1 == p[a];
                assert(hs[i] == d[i]);
                assert(0 <= i < hs.len() && hs[i].0 == h && hs[i].1 == cur[a]);
            } else {
                assert(hs.last().0 == h);
                assert(cur == p.push(hs.last().1));
                assert(hs[hs.len() - 1].1 == cur[a]);
            }
        }
    }
}

/// A track played in the mix at offset `d` is voted for at `d`: a hash the
/// mix holds exactly `d` frames after the track holds it votes for `d`,
/// unless the mix repeats it more than `MAX_MIX_HASH_OCCURRENCES` times or
/// the track more than `MAX_HASH_OCCURRENCES` times (then only its sampled
/// occurrences vote).
pub proof fn lemma_aligned_hash_votes(
    track: Seq<(u32, u32)>,
    mix: Seq<(u32, u32)>,
    tmap: Map<u32, Vec<u32>>,
    occ: Map<u32, u32>,
    i: int,
    k: int,
    d: int,
)
    requires
        is_track_index(track, tmap),
        is_mix_occurrences(mix, occ),
        0 <= i < track.len(),
        0 <= k < mix.len(),
        mix[k].0 == track[i].0,
        mix[k].1 == track[i].1 + d,
        count_hash(mix, track[i].0) <= MAX_MIX_HASH_OCCURRENCES,
        count_hash(track, track[i].0) <= MAX_HASH_OCCURRENCES,
    ensures
        votes_for(mix, occ, tmap, d, track[i].0),
{
    let h = track[i].0;
    lemma_times_of_members(track, h);
    assert(has_hash(track, h));
    assert(has_hash(mix, h)) by {
        assert(mix[k].0 == h);
    }
    assert(tmap.contains_key(h) && occ.contains_key(h));
    let ts = times_of(track, h);
    assert(tmap[h]@ == ts);
    let j = choose|j: int| 0 <= j < ts.len() && ts[j] == track[i].1;
    assert(vote_at(mix, occ, tmap, k, j, d, h));
}

/// Every vote comes from a track occurrence and a mix occurrence of the same
/// hash lying exactly `o` frames apart.
pub proof fn lemma_votes_are_aligned(
    track: Seq<(u32, u32)>,
    mix: Seq<(u32, u32)>,
    tmap: Map<u32, Vec<u32>>,
    occ: Map<u32, u32>,
    o: int,
    h: u32,
)
    requires
        is_track_index(track, tmap),
        votes_for(mix, occ, tmap, o, h),
    ensures
        exists|i: int, k: int|
            0 <= i < track.len() && 0 <= k < mix.len() && (#[trigger] track[i]).0 == h
                && (#[trigger] mix[k]).0 == h && mix[k].1 - track[i].1 == o,
{
    let (k, j) = choose|k: int, j: int| #[trigger] vote_at(mix, occ, tmap, k, j, o, h);
    let ts = times_of(track, h);
    lemma_times_of_members(track, h);
    lemma_stride_sampled_shape(ts);
    assert(tmap.contains_key(h));
    assert(tmap[h]@ == stride_sampled(ts));
    assert(ts.contains(stride_sampled(ts)[j]));
    let a = choose|a: int| 0 <= a < ts.len() && ts[a] == stride_sampled(ts)[j];
    assert(occurs_at(track, h, ts[a]));
    let i = choose|i: int| 0 <= i < track.len() && (#[trigger] track[i]).0 == h && track[i].1 == ts[a];
    assert(0 <= i < track.len() && 0 <= k < mix.len() && track[i].0 == h && mix[k].0 == h
        && mix[k].1 - track[i].1 == o);
}

proof fn lemma_run_times_repeat(run: Seq<(u32, u32)>, i: int)
    requires
        0 <= i < run.len(),
    ensures
        run_times(run.insert(i + 1, run[i])) == run_times(run),
    decreases run.len(),
{
    let r2 = run.insert(i + 1, run[i]);
    if i + 1 == run.len() {
        assert(r2.drop_last() =~= run);
        assert(r2.last() == run.last());
        assert(run.drop_last().push(run.last()) =~= run);
    } else {
        lemma_run_times_repeat(run.drop_last(), i);
        assert(r2.drop_last() =~= run.drop_last().insert(i + 1, run[i]));
        assert(run.drop_last()[i] == run[i]);
        assert(r2.last() == run.last());
    }
}

/// Repeating a matched `(frame, hash)` pair right after itself changes
/// nothing: the run's trimmed span, and the hashes matched within any span,
/// stay the same (each frame and each hash counts once).
pub proof fn lemma_repeated_pair_changes_nothing(run: Seq<(u32, u32)>, i: int)
    requires
        0 <= i < run.len(),
    ensures
        trimmed_span(run.insert(i + 1, run[i])) == trimmed_span(run),
        forall|a: int, b: int|
            #[trigger] span_hashes(run.insert(i + 1, run[i]), a, b) == span_hashes(run, a, b),
{
    let r2 = run.insert(i + 1, run[i]);
    lemma_run_times_repeat(run, i);
    assert forall|a: int, b: int| #[trigger] span_hashes(r2, a, b) == span_hashes(run, a, b) by {
        assert forall|h: u32| span_hashes(r2, a, b).contains(h) <==> span_hashes(run, a, b).contains(h) by {
            if span_hashes(r2, a, b).contains(h) {
                let k = choose|k: int| 0 <= k < r2.len() && (#[trigger] r2[k]).1 == h && a <= r2[k].0 <= b;
                if k <= i {
                    assert(run[k] == r2[k]);
                } else if k == i + 1 {
                    assert(r2[k] == run[i]);
                } else {
                    assert(run[k - 1] == r2[k]);
                }
            }
            if span_hashes(run, a, b).contains(h) {
                let k = choose|k: int| 0 <= k < run.len() && (#[trigger] run[k]).1 == h && a <= run[k].0 <= b;
                if k <= i {
                    assert(r2[k] == run[k]);
                } else {
                    assert(r2[k + 1] == run[k]);
                }
            }
        }
        assert(span_hashes(r2, a, b) =~= span_hashes(run, a, b));
    }
}

/// The sort keys of the segments a track may report: the start frames of
/// the first `MAX_SEGMENTS_PER_TRACK` accepted runs, in scan order.
pub open spec fn reported_start_keys(starts: Seq<u32>) -> Seq<i128> {
    let k = if starts.len() < MAX_SEGMENTS_PER_TRACK {
        starts.len() as int
    } else {
        MAX_SEGMENTS_PER_TRACK as int
    };
    starts.take(k).map_values(|t: u32| t as i128)
}

/// The segments a track reports, given the start frames of its accepted runs
/// in scan order: the first `MAX_SEGMENTS_PER_TRACK` of them, listed by start
/// (equal starts keep scan order), as indices into `starts`.
pub fn reported_segments(starts: &Vec<u32>) -> (out: Vec<usize>)
    ensures
        is_stable_order(reported_start_keys(starts@), out@),
        forall|v: usize| v < reported_start_keys(starts@).len() ==> #[trigger] out@.contains(v),
{
    let k = if starts.len() < MAX_SEGMENTS_PER_TRACK {
        starts.len()
    } else {
        MAX_SEGMENTS_PER_TRACK
    };
    let mut keys: Vec<i128> = Vec::new();
    let mut i: usize = 0;
    while i < k
        invariant
            i <= k <= starts.len(),
            k == reported_start_keys(starts@).len(),
            keys@ =~= reported_start_keys(starts@).take(i as int),
        decreases k - i,
    {
        keys.push(starts[i] as i128);
        i = i + 1;
    }
    assert(keys@ =~= reported_start_keys(starts@));
    stable_order(&keys)
}

/// Frame `t` falls in trimming bucket `q` of a run starting at frame `t0`.
pub open spec fn in_bucket(t0: int, t: int, q: int) -> bool {
    (t - t0) / (BUCKET_FRAMES as int) == q
}

proof fn lemma_count_below_split(times: Seq<u32>, x: int)
    requires
        forall|a: int, b: int| 0 <= a < b < times.len() ==> #[trigger] times[a] < #[trigger] times[b],
    ensures
        count_below(times, x) <= times.len(),
        forall|i: int| 0 <= i < count_below(times, x) ==> #[trigger] times[i] < x,
        forall|i: int| count_below(times, x) <= i < times.len() ==> #[trigger] times[i] >= x,
    decreases times.len(),
{
    if times.len() > 0 {
        let d = times.drop_last();
        let n = times.len() - 1;
        assert forall|a: int, b: int| 0 <= a < b < d.len() implies #[trigger] d[a] < #[trigger] d[b] by {
            assert(d[a] == times[a] && d[b] == times[b]);
        }
        lemma_count_below_split(d, x);
        let c = count_below(d, x) as int;
        assert(times.last() == times[n]);
        if times[n] < x {
            assert(count_below(times, x) == c + 1);
            if c < d.len() {
                assert(d[c] >= x);
                assert(times[c] < times[n]);
                assert(d[c] == times[c]);
            }
            assert forall|i: int| 0 <= i < count_below(times, x) implies #[trigger] times[i] < x by {
                if i < n {
                    assert(times[i] < times[n]);
                }
            }
        } else {
            assert(count_below(times, x) == c);
            assert forall|i: int| 0 <= i < count_below(times, x) implies #[trigger] times[i] < x by {
                assert(d[i] == times[i]);
            }
            assert forall|i: int| count_below(times, x) <= i < times.len() implies #[trigger] times[i] >= x by {
                if i < n {
                    assert(d[i] == times[i]);
                }
            }
        }
    }
}

proof fn lemma_bucket_count_members(times: Seq<u32>, t0: int, q: int)
    ensures
        bucket_count(times, t0, q) > 0 <==> exists|i: int|
            0 <= i < times.len() && in_bucket(t0, #[trigger] times[i] as int, q),
    decreases times.len(),
{
    if times.len() > 0 {
        let d = times.drop_last();
        let n = times.len() - 1;
        lemma_bucket_count_members(d, t0, q);
        assert(times.last() == times[n]);
        if exists|i: int| 0 <= i < times.len() && in_bucket(t0, #[trigger] times[i] as int, q) {
            let i = choose|i: int| 0 <= i < times.len() && in_bucket(t0, #[trigger] times[i] as int, q);
            if i < n {
                assert(d[i] == times[i]);
            }
        }
        if exists|i: int| 0 <= i < d.len() && in_bucket(t0, #[trigger] d[i] as int, q) {
            let i = choose|i: int| 0 <= i < d.len() && in_bucket(t0, #[trigger] d[i] as int, q);
            assert(times[i] == d[i]);
        }
    }
}

proof fn lemma_peak_count_max(times: Seq<u32>, t0: int, nb: int, q: int)
    requires
        0 <= q < nb,
    ensures
        bucket_count(times, t0, q) <= peak_count(times, t0, nb),
    decreases nb,
{
    if q < nb - 1 {
        lemma_peak_count_max(times, t0, nb - 1, q);
    }
}

proof fn lemma_trim_lead(times: Seq<u32>, t0: int, peak: nat, nb: int, b: int)
    requires
        0 <= b < nb,
    ensures
        b <= trim_lead(times, t0, peak, nb, b) < nb,
        forall|q: int| b <= q < trim_lead(times, t0, peak, nb, b) ==> weak_bucket(times, t0, peak, q),
        trim_lead(times, t0, peak, nb, b) + 1 >= nb || !weak_bucket(
            times,
            t0,
            peak,
            trim_lead(times, t0, peak, nb, b),
        ),
    decreases nb - b,
{
    if b + 1 < nb && weak_bucket(times, t0, peak, b) {
        lemma_trim_lead(times, t0, peak, nb, b + 1);
    }
}

proof fn lemma_trim_tail(times: Seq<u32>, t0: int, peak: nat, sb: int, e: int)
    requires
        0 <= sb <= e,
    ensures
        sb <= trim_tail(times, t0, peak, sb, e) <= e,
        forall|q: int| trim_tail(times, t0, peak, sb, e) < q <= e ==> weak_bucket(times, t0, peak, q),
        trim_tail(times, t0, peak, sb, e) <= sb + 1 || !weak_bucket(
            times,
            t0,
            peak,
            trim_tail(times, t0, peak, sb, e),
        ),
    decreases e,
{
    if e > sb + 1 && e > 0 && weak_bucket(times, t0, peak, e) {
        lemma_trim_tail(times, t0, peak, sb, e - 1);
    }
}

/// Adaptive trimming cuts exactly the weak edges of a run. Frames are
/// grouped in buckets of `BUCKET_FRAMES` from the run's first frame; a
/// bucket is weak when it holds under a quarter of the fullest bucket's
/// frames. For a kept run, with `qa` and `qb` the buckets of its first and
/// last kept frame:
/// - every bucket before `qa` and every bucket after `qb` is weak (so sparse
///   bleed into a neighbouring song is cut on both sides);
/// - bucket `qa` is not weak, unless it is the run's last bucket; bucket
///   `qb` is not weak, unless it follows `qa` directly or is `qa` (trimming
///   always keeps two buckets);
/// - the span takes every matched frame of its first and last bucket;
/// - it holds at least three distinct matched frames, covering at least a
///   quarter of the frames it spans.
pub proof fn lemma_trim_cuts_weak_edges(run: Seq<(u32, u32)>)
    requires
        run.len() > 0,
        time_ordered(run),
    ensures
        trimmed_span(run) matches Some((a, b)) ==> {
            let times = run_times(run);
            let t0 = times[0] as int;
            let nb = (times.last() - t0) / (BUCKET_FRAMES as int) + 1;
            let peak = peak_count(times, t0, nb);
            let qa = (a - t0) / (BUCKET_FRAMES as int);
            let qb = (b - t0) / (BUCKET_FRAMES as int);
            &&& 0 <= qa <= qb < nb
            &&& forall|q: int| 0 <= q < qa ==> weak_bucket(times, t0, peak, q)
            &&& forall|q: int| qb < q < nb ==> weak_bucket(times, t0, peak, q)
            &&& (!weak_bucket(times, t0, peak, qa) || qa == nb - 1)
            &&& (!weak_bucket(times, t0, peak, qb) || qb <= qa + 1)
            &&& forall|i: int|
                0 <= i < times.len() && in_bucket(t0, #[trigger] times[i] as int, qa) ==> a <= times[i]
            &&& forall|i: int|
                0 <= i < times.len() && in_bucket(t0, #[trigger] times[i] as int, qb) ==> times[i] <= b
            &&& count_below(times, b + 1) - count_below(times, a as int) >= 3
            &&& (MIN_DENSITY_INV as int) * (count_below(times, b + 1) - count_below(times, a as int))
                >= b - a
        },
{
    lemma_run_times(run);
    let times = run_times(run);
    if let Some((a, b)) = trimmed_span(run) {
        let t0 = times[0] as int;
        let nb = (times.last() - t0) / (BUCKET_FRAMES as int) + 1;
        let peak = peak_count(times, t0, nb);
        let sb = trim_lead(times, t0, peak, nb, 0);
        lemma_trim_lead(times, t0, peak, nb, 0);
        let eb = trim_tail(times, t0, peak, sb, nb - 1);
        lemma_trim_tail(times, t0, peak, sb, nb - 1);
        let lo = t0 + sb * (BUCKET_FRAMES as int);
        let hi = t0 + (eb + 1) * (BUCKET_FRAMES as int);
        let s = count_below(times, lo) as int;
        let below_hi = count_below(times, hi) as int;
        lemma_count_below_split(times, lo);
        lemma_count_below_split(times, hi);
        let e = below_hi - 1;
        assert(0 <= s < e < times.len());
        assert(a == times[s] && b == times[e]);
        let n = times.len();
        assert(times.last() == times[n - 1]);
        assert forall|i: int| 0 <= i < n implies t0 <= #[trigger] times[i] <= times[n - 1] by {
            if i > 0 {
                assert(times[0] < times[i]);
            }
            if i < n - 1 {
                assert(times[i] < times[n - 1]);
            }
        }
        // the fullest bucket holds at least the first frame
        lemma_bucket_count_members(times, t0, 0);
        assert(in_bucket(t0, times[0] as int, 0));
        lemma_peak_count_max(times, t0, nb, 0);
        assert(peak >= 1);
        let qa = (a - t0) / (BUCKET_FRAMES as int);
        let qb = (b - t0) / (BUCKET_FRAMES as int);
        assert(times[s] < times[e]);
        // the first kept frame lies in bucket sb
        if !weak_bucket(times, t0, peak, sb) {
            lemma_bucket_count_members(times, t0, sb);
            let i = choose|i: int| 0 <= i < n && in_bucket(t0, #[trigger] times[i] as int, sb);
            if i < s {
                assert(times[i] < lo);
            }
            if s < i {
                assert(times[s] < times[i]);
            }
        }
        assert(qa == sb);
        // the last kept frame lies in bucket eb when eb is strong
        if !weak_bucket(times, t0, peak, eb) {
            lemma_bucket_count_members(times, t0, eb);
            let i = choose|i: int| 0 <= i < n && in_bucket(t0, #[trigger] times[i] as int, eb);
            assert(times[i] < hi);
            if i > e {
                assert(times[i] >= hi);
            }
            if i < e {
                assert(times[i] < times[e]);
            }
            assert(qb == eb);
        }
        assert(qb <= eb);
        assert forall|q: int| qb < q < nb implies weak_bucket(times, t0, peak, q) by {
            if q <= eb {
                lemma_bucket_count_members(times, t0, q);
                if bucket_count(times, t0, q) > 0 {
                    let i = choose|i: int| 0 <= i < n && in_bucket(t0, #[trigger] times[i] as int, q);
                    assert(times[i] < hi);
                    if i > e {
                        assert(times[i] >= hi);
                    }
                    if i < e {
                        assert(times[i] < times[e]);
                    }
                }
            }
        }
        assert forall|i: int| 0 <= i < n && in_bucket(t0, #[trigger] times[i] as int, qa) implies a
            <= times[i] by {
            assert(times[i] >= lo);
            if i < s {
                assert(times[i] < lo);
            }
            if s < i {
                assert(times[s] < times[i]);
            }
        }
        lemma_count_below_split(times, a as int);
        lemma_count_below_split(times, b + 1);
        let ca = count_below(times, a as int) as int;
        let cb = count_below(times, b + 1) as int;
        if ca < s {
            assert(times[ca] >= a);
            assert(times[ca] < times[s]);
        }
        if ca > s {
            assert(times[s] < a);
        }
        if cb < e + 1 {
            assert(times[cb] >= b + 1);
            assert(times[cb] <= times[e]);
        }
        if cb > e + 1 {
            assert(times[e + 1] < b + 1);
            assert(times[e] < times[e + 1]);
        }
        assert(ca == s && cb == e + 1);
        assert forall|i: int| 0 <= i < n && in_bucket(t0, #[trigger] times[i] as int, qb) implies times[i]
            <= b by {
            assert(times[i] < hi);
            if i > e {
                assert(times[i] >= hi);
            }
            if i < e {
                assert(times[i] < times[e]);
            }
        }
    }
}

} // verus!
