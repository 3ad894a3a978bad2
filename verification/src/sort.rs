//! Stable sorting in descending order of a key.

use vstd::prelude::*;

verus! {

/// `order` lists each index below `n` exactly once.
pub open spec fn is_index_permutation(order: Seq<usize>, n: nat) -> bool {
    &&& order.len() == n
    &&& forall|i: int| 0 <= i < order.len() ==> #[trigger] order[i] < n
    &&& forall|i: int, j: int| 0 <= i < j < order.len() ==> #[trigger] order[i] != #[trigger] order[j]
    &&& forall|j: int| 0 <= j < n ==> #[trigger] lists_index(order, j)
}

/// Whether index `j` occurs in `order`.
pub open spec fn lists_index(order: Seq<usize>, j: int) -> bool {
    exists|a: int| 0 <= a < order.len() && #[trigger] order[a] == j
}

/// `order` lists the indices by descending key, equal keys in index order
/// (the order a stable sort by descending key produces).
pub open spec fn is_stable_desc(keys: Seq<i128>, order: Seq<usize>) -> bool {
    forall|a: int, b: int|
        0 <= a < b < order.len() ==> keys[#[trigger] order[a] as int] > keys[#[trigger] order[b] as int] || (
        keys[order[a] as int] == keys[order[b] as int] && order[a] < order[b])
}

/// The stable descending order of `keys`.
pub open spec fn is_stable_desc_order(keys: Seq<i128>, order: Seq<usize>) -> bool {
    is_index_permutation(order, keys.len()) && is_stable_desc(keys, order)
}

/// The indices of `keys` sorted by descending key, equal keys keeping their
/// original order.
pub fn stable_desc_order(keys: &Vec<i128>) -> (order: Vec<usize>)
    ensures
        is_stable_desc_order(keys@, order@),
{
    let mut order: Vec<usize> = Vec::new();
    let mut i: usize = 0;
    while i < keys.len()
        invariant
            i <= keys.len(),
            is_index_permutation(order@, i as nat),
            is_stable_desc(keys@, order@),
            forall|a: int| 0 <= a < order@.len() ==> #[trigger] order@[a] < keys@.len(),
        decreases keys.len() - i,
    {
        let k = keys[i];
        // The first position holding a smaller key.
        let mut p: usize = 0;
        while p < order.len() && keys[order[p]] >= k
            invariant
                p <= order@.len(),
                is_index_permutation(order@, i as nat),
                i < keys@.len(),
                k == keys@[i as int],
                forall|a: int| 0 <= a < order@.len() ==> #[trigger] order@[a] < keys@.len(),
                forall|a: int| 0 <= a < p ==> keys@[#[trigger] order@[a] as int] >= k,
            decreases order@.len() - p,
        {
            p = p + 1;
        }
        let ghost before = order@;
        order.insert(p, i);
        proof {
            assert(order@ =~= before.take(p as int).push(i) + before.skip(p as int));
            assert forall|a: int| 0 <= a < order@.len() implies #[trigger] order@[a] < i + 1 by {
                if a < p {
                    assert(order@[a] == before[a]);
                } else if a > p {
                    assert(order@[a] == before[a - 1]);
                }
            }
            assert forall|j: int| 0 <= j < i + 1 implies #[trigger] lists_index(order@, j) by {
                if j == i {
                    assert(order@[p as int] == j);
                } else {
                    assert(lists_index(before, j));
                    let a0 = choose|a: int| 0 <= a < before.len() && #[trigger] before[a] == j;
                    if a0 < p {
                        assert(order@[a0] == j);
                    } else {
                        assert(order@[a0 + 1] == j);
                    }
                }
            }
            assert forall|a: int, b: int| 0 <= a < b < order@.len() implies #[trigger] order@[a] != #[trigger] order@[b] by {
                if a != p && b != p {
                    let a2 = if a < p { a } else { a - 1 };
                    let b2 = if b < p { b } else { b - 1 };
                    assert(order@[a] == before[a2]);
                    assert(order@[b] == before[b2]);
                } else if a == p {
                    let b2 = if b < p { b } else { b - 1 };
                    assert(order@[b] == before[b2]);
                } else {
                    let a2 = if a < p { a } else { a - 1 };
                    assert(order@[a] == before[a2]);
                }
            }
            assert forall|a: int, b: int| 0 <= a < b < order@.len() implies keys@[#[trigger] order@[a] as int] > keys@[#[trigger] order@[b] as int] || (
                keys@[order@[a] as int] == keys@[order@[b] as int] && order@[a] < order@[b]) by {
                if a != p && b != p {
                    let a2 = if a < p { a } else { a - 1 };
                    let b2 = if b < p { b } else { b - 1 };
                    assert(order@[a] == before[a2]);
                    assert(order@[b] == before[b2]);
                } else if a == p {
                    // b > p: keys there are smaller than k.
                    let b2 = b - 1;
                    assert(order@[b] == before[b2]);
                    if p < before.len() {
                        assert(keys@[before[p as int] as int] < k);
                        if b2 > p {
                            assert(keys@[before[p as int] as int] >= keys@[before[b2] as int]);
                        }
                    }
                } else {
                    // a < p: keys there are at least k, and indices below i.
                    assert(order@[a] == before[a]);
                }
            }
        }
        i = i + 1;
    }
    order
}

/// There is one stable descending order of a sequence of keys.
pub proof fn lemma_stable_desc_order_unique(keys: Seq<i128>, o1: Seq<usize>, o2: Seq<usize>)
    requires
        is_stable_desc_order(keys, o1),
        is_stable_desc_order(keys, o2),
    ensures
        o1 == o2,
{
    assert forall|a: int| 0 <= a < o1.len() implies o1[a] == o2[a] by {
        lemma_stable_desc_agree(keys, o1, o2, a);
    }
    assert(o1 =~= o2);
}

/// Two stable descending orders agree up to position `a`.
proof fn lemma_stable_desc_agree(keys: Seq<i128>, o1: Seq<usize>, o2: Seq<usize>, a: int)
    requires
        is_stable_desc_order(keys, o1),
        is_stable_desc_order(keys, o2),
        0 <= a < o1.len(),
    ensures
        forall|c: int| 0 <= c <= a ==> #[trigger] o1[c] == o2[c],
    decreases a,
{
    if a > 0 {
        lemma_stable_desc_agree(keys, o1, o2, a - 1);
    }
    let x = o1[a];
    let y = o2[a];
    if x != y {
        // y sits in o1 after position a, x sits in o2 after position a.
        assert(lists_index(o1, y as int));
        let b = choose|b: int| 0 <= b < o1.len() && #[trigger] o1[b] == y;
        assert(lists_index(o2, x as int));
        let c = choose|c: int| 0 <= c < o2.len() && #[trigger] o2[c] == x;
        if b < a {
            assert(o2[b] == y);
        }
        if c < a {
            assert(o1[c] == x);
        }
        assert(b > a);
        assert(c > a);
        assert(keys[o1[a] as int] > keys[o1[b] as int] || (keys[o1[a] as int] == keys[o1[b] as int] && o1[a] < o1[b]));
        assert(keys[o2[a] as int] > keys[o2[c] as int] || (keys[o2[a] as int] == keys[o2[c] as int] && o2[a] < o2[c]));
    }
}

} // verus!
