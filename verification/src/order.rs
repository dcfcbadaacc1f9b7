//! Stable ordering by integer keys: the order a stable sort (`sort_by`,
//! `sort_by_key`) puts items in, given as the permutation of their indices.

use vstd::prelude::*;

verus! {

/// Item `a` comes before item `b` in the stable order by `keys`: smaller key
/// first, and between equal keys the earlier item first.
pub open spec fn key_before(keys: Seq<i128>, a: int, b: int) -> bool {
    keys[a] < keys[b] || (keys[a] == keys[b] && a < b)
}

/// `p` lists the indices of `keys` in stable ascending order of their keys.
pub open spec fn is_stable_order(keys: Seq<i128>, p: Seq<usize>) -> bool {
    &&& p.len() == keys.len()
    &&& forall|i: int| 0 <= i < p.len() ==> #[trigger] p[i] < keys.len()
    &&& forall|i: int, j: int|
        0 <= i < j < p.len() ==> key_before(keys, #[trigger] p[i] as int, #[trigger] p[j] as int)
}

/// The permutation a stable sort by `keys` applies: `p[0]` is the index of
/// the item that comes first, and so on.
pub fn stable_order(keys: &Vec<i128>) -> (p: Vec<usize>)
    ensures
        is_stable_order(keys@, p@),
        forall|v: usize| v < keys.len() ==> #[trigger] p@.contains(v),
{
    let n = keys.len();
    let mut p: Vec<usize> = Vec::new();
    let mut i: usize = 0;
    while i < n
        invariant
            i <= n == keys.len(),
            p.len() == i,
            forall|k: int| 0 <= k < p.len() ==> #[trigger] p@[k] < i,
            forall|a: int, b: int|
                0 <= a < b < p.len() ==> key_before(keys@, #[trigger] p@[a] as int, #[trigger] p@[b] as int),
            forall|v: usize| v < i ==> #[trigger] p@.contains(v),
        decreases n - i,
    {
        let ki = keys[i];
        let mut pos = p.len();
        while pos > 0 && keys[p[pos - 1]] > ki
            invariant
                pos <= p.len() == i < n == keys.len(),
                ki == keys@[i as int],
                forall|k: int| 0 <= k < p.len() ==> #[trigger] p@[k] < i,
                forall|k: int| pos <= k < p.len() ==> keys@[#[trigger] p@[k] as int] > ki,
            decreases pos,
        {
            pos = pos - 1;
        }
        let ghost old_p = p@;
        p.insert(pos, i);
        proof {
            assert(p@ == old_p.insert(pos as int, i));
            assert forall|a: int, b: int|
                0 <= a < b < p.len() implies key_before(keys@, #[trigger] p@[a] as int, #[trigger] p@[b] as int) by {
                if b < pos {
                } else if b == pos {
                    assert(a < pos);
                    assert(keys@[old_p[pos - 1] as int] <= ki);
                    if a < pos - 1 {
                        assert(key_before(keys@, old_p[a] as int, old_p[pos - 1] as int));
                    }
                } else if a == pos {
                    assert(p@[b] == old_p[b - 1]);
                } else if a < pos {
                    assert(p@[b] == old_p[b - 1]);
                } else {
                    assert(p@[a] == old_p[a - 1]);
                    assert(p@[b] == old_p[b - 1]);
                }
            }
            assert forall|v: usize| v < i + 1 implies #[trigger] p@.contains(v) by {
                if v == i {
                    assert(p@[pos as int] == i);
                } else {
                    assert(old_p.contains(v));
                    let k = choose|k: int| 0 <= k < old_p.len() && old_p[k] == v;
                    if k < pos {
                        assert(p@[k] == v);
                    } else {
                        assert(p@[k + 1] == v);
                    }
                }
            }
        }
        i = i + 1;
    }
    p
}

} // verus!
