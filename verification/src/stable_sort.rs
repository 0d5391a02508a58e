//! Stable ordering of items by a two-part key.
//!
//! Items are ordered by their keys, smallest first; items with equal keys keep
//! the order they came in (what `slice::sort_by_key` guarantees).

use vstd::prelude::*;

verus! {

/// Lexicographic `a <= b` on two-part keys.
pub open spec fn key_le(a: (u64, u64), b: (u64, u64)) -> bool {
    a.0 < b.0 || (a.0 == b.0 && a.1 <= b.1)
}

/// `order` lists every index of `keys` exactly once, by key, and indices with
/// equal keys in increasing order: the stable sort of `keys`.
pub open spec fn is_stable_order(keys: Seq<(u64, u64)>, order: Seq<usize>) -> bool {
    &&& order.len() == keys.len()
    &&& forall|i: int| 0 <= i < order.len() ==> (#[trigger] order[i] as int) < keys.len()
    &&& forall|k: int| 0 <= k < keys.len() ==> #[trigger] order.contains(k as usize)
    &&& forall|i: int, j: int|
        #![trigger order[i], order[j]]
        0 <= i < j < order.len() ==> {
            &&& key_le(keys[order[i] as int], keys[order[j] as int])
            &&& keys[order[i] as int] == keys[order[j] as int] ==> order[i] < order[j]
        }
}

/// Strict version of the order: by key, then by index.
pub open spec fn before(keys: Seq<(u64, u64)>, a: usize, b: usize) -> bool {
    ||| (key_le(keys[a as int], keys[b as int]) && keys[a as int] != keys[b as int])
    ||| (keys[a as int] == keys[b as int] && a < b)
}

fn key_le_exec(a: (u64, u64), b: (u64, u64)) -> (r: bool)
    ensures
        r == key_le(a, b),
{
    a.0 < b.0 || (a.0 == b.0 && a.1 <= b.1)
}

/// The stable sort of `keys`, as a list of indices into `keys`.
pub fn stable_sort_indices(keys: &Vec<(u64, u64)>) -> (order: Vec<usize>)
    ensures
        is_stable_order(keys@, order@),
{
    let n = keys.len();
    let mut order: Vec<usize> = Vec::new();
    let mut i: usize = 0;
    while i < n
        invariant
            n == keys@.len(),
            i <= n,
            order@.len() == i,
            forall|a: int| 0 <= a < order@.len() ==> (#[trigger] order@[a] as int) < i,
            forall|k: int| 0 <= k < i ==> #[trigger] order@.contains(k as usize),
            forall|a: int, b: int|
                #![trigger order@[a], order@[b]]
                0 <= a < b < order@.len() ==> {
                    &&& key_le(keys@[order@[a] as int], keys@[order@[b] as int])
                    &&& keys@[order@[a] as int] == keys@[order@[b] as int] ==> order@[a] < order@[b]
                },
        decreases n - i,
    {
        let ki = keys[i];
        // Insertion point: after every element whose key is not above `ki`.
        let mut p: usize = order.len();
        while p > 0 && !key_le_exec(keys[order[p - 1]], ki)
            invariant
                n == keys@.len(),
                i < n,
                ki == keys@[i as int],
                p <= order@.len(),
                forall|a: int| 0 <= a < order@.len() ==> (#[trigger] order@[a] as int) < i,
                forall|b: int| p <= b < order@.len() ==> !key_le(#[trigger] keys@[order@[b] as int], ki),
            decreases p,
        {
            p = p - 1;
        }
        let ghost old_order = order@;
        proof {
            // Everything before the insertion point is at most `ki`.
            assert forall|a: int| 0 <= a < p implies key_le(#[trigger] keys@[old_order[a] as int], ki) by {
                if p > 0 {
                    let last = keys@[old_order[p - 1] as int];
                    assert(key_le(last, ki));
                    if a < p - 1 {
                        assert(key_le(keys@[old_order[a] as int], last));
                    }
                }
            }
        }
        order.insert(p, i);
        proof {
            let o = order@;
            assert(o == old_order.insert(p as int, i));
            assert forall|a: int| 0 <= a < o.len() implies (#[trigger] o[a] as int) < i + 1 by {
                if a < p {
                    assert(o[a] == old_order[a]);
                } else if a > p {
                    assert(o[a] == old_order[a - 1]);
                }
            }
            assert forall|k: int| 0 <= k < i + 1 implies #[trigger] o.contains(k as usize) by {
                if k == i {
                    assert(o[p as int] == i);
                } else {
                    assert(old_order.contains(k as usize));
                    let q = choose|q: int| 0 <= q < old_order.len() && old_order[q] == k as usize;
                    if q < p {
                        assert(o[q] == k as usize);
                    } else {
                        assert(o[q + 1] == k as usize);
                    }
                }
            }
            assert forall|a: int, b: int| 0 <= a < b < o.len() implies {
                &&& key_le(keys@[#[trigger] o[a] as int], keys@[#[trigger] o[b] as int])
                &&& keys@[o[a] as int] == keys@[o[b] as int] ==> o[a] < o[b]
            } by {
                if b < p {
                    assert(o[a] == old_order[a] && o[b] == old_order[b]);
                } else if b == p {
                    assert(o[a] == old_order[a]);
                    assert(key_le(keys@[old_order[a] as int], ki));
                } else if a < p {
                    assert(o[a] == old_order[a] && o[b] == old_order[b - 1]);
                    if p < old_order.len() {
                        let pk = keys@[old_order[p as int] as int];
                        assert(!key_le(pk, ki));
                        assert(key_le(keys@[old_order[a] as int], ki));
                        if b - 1 > p {
                            assert(key_le(pk, keys@[old_order[b - 1] as int]));
                        }
                    }
                } else if a == p {
                    assert(o[b] == old_order[b - 1]);
                    assert(!key_le(keys@[old_order[b - 1] as int], ki));
                } else {
                    assert(o[a] == old_order[a - 1] && o[b] == old_order[b - 1]);
                }
            }
        }
        i = i + 1;
    }
    order
}


proof fn lemma_stable_order_prefix(keys: Seq<(u64, u64)>, o1: Seq<usize>, o2: Seq<usize>, i: int)
    requires
        is_stable_order(keys, o1),
        is_stable_order(keys, o2),
        0 <= i <= o1.len(),
    ensures
        forall|j: int| 0 <= j < i ==> #[trigger] o1[j] == o2[j],
    decreases i,
{
    if i > 0 {
        let i0 = i - 1;
        lemma_stable_order_prefix(keys, o1, o2, i0);
        let a = o1[i0];
        let b = o2[i0];
        if a != b {
            assert((o2[i0] as int) < keys.len());
            assert(o1.contains((b as int) as usize));
            let p = choose|p: int| 0 <= p < o1.len() && o1[p] == b;
            assert((o1[i0] as int) < keys.len());
            assert(o2.contains((a as int) as usize));
            let q = choose|q: int| 0 <= q < o2.len() && o2[q] == a;
            if p < i0 {
                assert(o1[p] == o2[p]);
                assert(o2[p] == o2[i0]);
                assert(false);
            }
            if q < i0 {
                assert(o2[q] == o1[q]);
                assert(o1[q] == o1[i0]);
                assert(false);
            }
            assert(p > i0 && q > i0);
            assert(key_le(keys[a as int], keys[b as int]));
            assert(key_le(keys[b as int], keys[a as int]));
            assert(keys[a as int] == keys[b as int]);
            assert(a < b);
            assert(b < a);
        }
    }
}

/// A stable order is unique: there is exactly one way to sort `keys`
/// stably.
pub proof fn lemma_stable_order_unique(keys: Seq<(u64, u64)>, o1: Seq<usize>, o2: Seq<usize>)
    requires
        is_stable_order(keys, o1),
        is_stable_order(keys, o2),
    ensures
        o1 == o2,
{
    lemma_stable_order_prefix(keys, o1, o2, o1.len() as int);
    assert(o1 =~= o2);
}

} // verus!
