//! Stable ordering by an integer key.
//!
//! Both the placeholder store and the live detector order items by a key
//! (a placeholder id, or the left edge of a region) with a stable sort: items
//! with equal keys keep their original relative order. The order is returned
//! as the list of original indices, which pins it down uniquely.
use vstd::prelude::*;

verus! {

/// `order` lists every index below `n` exactly once.
pub open spec fn is_index_permutation(order: Seq<usize>, n: nat) -> bool {
    &&& order.len() == n
    &&& forall|i: int| 0 <= i < n ==> #[trigger] order[i] < n
    &&& forall|i: int, j: int| 0 <= i < j < n ==> #[trigger] order[i] != #[trigger] order[j]
    &&& forall|a: usize| a < n ==> #[trigger] order.contains(a)
}

/// Visiting `keys` in the order `order` meets the keys in non-decreasing order,
/// and items with equal keys in their original order.
pub open spec fn is_stable_sort_order(keys: Seq<int>, order: Seq<usize>) -> bool {
    &&& is_index_permutation(order, keys.len())
    &&& forall|i: int, j: int|
        0 <= i < j < keys.len() ==> keys[#[trigger] order[i] as int] <= keys[#[trigger] order[j] as int]
    &&& forall|i: int, j: int|
        0 <= i < j < keys.len() && keys[#[trigger] order[i] as int] == keys[#[trigger] order[j] as int]
            ==> order[i] < order[j]
}

/// The stable sorting order of `keys` (unique, see `lemma_stable_sort_order_unique`).
pub open spec fn stable_order(keys: Seq<int>) -> Seq<usize> {
    choose|order: Seq<usize>| is_stable_sort_order(keys, order)
}

pub open spec fn int_keys(keys: Seq<i128>) -> Seq<int> {
    keys.map_values(|k: i128| k as int)
}

/// `a` comes strictly before `b` when ordering by key first and index second.
pub open spec fn precedes(keys: Seq<int>, a: int, b: int) -> bool {
    keys[a] < keys[b] || (keys[a] == keys[b] && a < b)
}

proof fn lemma_sorted_order_strictly_increases(keys: Seq<int>, order: Seq<usize>, i: int, j: int)
    requires
        is_stable_sort_order(keys, order),
        0 <= i < j < keys.len(),
    ensures
        precedes(keys, order[i] as int, order[j] as int),
{
    assert(keys[order[i] as int] <= keys[order[j] as int]);
    assert(order[i] != order[j]);
}

proof fn lemma_orders_agree_below(keys: Seq<int>, p: Seq<usize>, q: Seq<usize>, k: int)
    requires
        is_stable_sort_order(keys, p),
        is_stable_sort_order(keys, q),
        0 <= k <= keys.len(),
    ensures
        forall|j: int| 0 <= j < k ==> p[j] == q[j],
    decreases k,
{
    if k > 0 {
        let k1 = k - 1;
        lemma_orders_agree_below(keys, p, q, k1);
        let a = p[k1];
        let b = q[k1];
        if a != b {
            assert(0 <= a < keys.len());
            assert(0 <= b < keys.len());
            assert(q.contains(a));
            assert(p.contains(b));
            let m = choose|i: int| 0 <= i < q.len() && #[trigger] q[i] == a;
            let m2 = choose|i: int| 0 <= i < p.len() && #[trigger] p[i] == b;
            if m < k1 {
                assert(p[m] == q[m]);
                assert(p[m] == p[k1]);
                assert(false);
            }
            if m2 < k1 {
                assert(p[m2] == q[m2]);
                assert(q[m2] == q[k1]);
                assert(false);
            }
            assert(m > k1);
            assert(m2 > k1);
            lemma_sorted_order_strictly_increases(keys, q, k1, m);
            lemma_sorted_order_strictly_increases(keys, p, k1, m2);
            assert(false);
        }
    }
}

/// Two stable sorting orders of the same keys are the same order.
pub proof fn lemma_stable_sort_order_unique(keys: Seq<int>, p: Seq<usize>, q: Seq<usize>)
    requires
        is_stable_sort_order(keys, p),
        is_stable_sort_order(keys, q),
    ensures
        p == q,
{
    lemma_orders_agree_below(keys, p, q, keys.len() as int);
    assert(p =~= q);
}

/// Any order that sorts `keys` stably is `stable_order(keys)`.
pub proof fn lemma_is_the_stable_order(keys: Seq<int>, order: Seq<usize>)
    requires
        is_stable_sort_order(keys, order),
    ensures
        stable_order(keys) == order,
{
    lemma_stable_sort_order_unique(keys, stable_order(keys), order);
}

/// Inserting index `i` right after the last entry whose key is at most
/// `keys[i]` extends a stable sorting order of the first `i` keys to one of the
/// first `i + 1` keys.
proof fn lemma_insert_keeps_stable_order(keys: Seq<int>, i: int, old_order: Seq<usize>, pos: int)
    requires
        0 <= i < keys.len(),
        i < usize::MAX,
        is_stable_sort_order(keys.subrange(0, i), old_order),
        0 <= pos <= i,
        forall|k: int| 0 <= k < pos ==> keys[#[trigger] old_order[k] as int] <= keys[i],
        forall|k: int| pos <= k < i ==> keys[#[trigger] old_order[k] as int] > keys[i],
    ensures
        is_stable_sort_order(keys.subrange(0, i + 1), old_order.insert(pos, i as usize)),
{
    let pre = keys.subrange(0, i);
    let post = keys.subrange(0, i + 1);
    let new_order = old_order.insert(pos, i as usize);
    assert(forall|k: int| 0 <= k < i ==> #[trigger] old_order[k] < i);
    assert(forall|k: int| 0 <= k < i ==> pre[#[trigger] old_order[k] as int] == keys[old_order[k] as int]);
    assert forall|k: int| 0 <= k < post.len() implies post[k] == keys[k] by {}
    assert forall|k: int| 0 <= k < i + 1 implies #[trigger] new_order[k] < i + 1 by {
        if k < pos {
        } else if k == pos {
        } else {
            assert(new_order[k] == old_order[k - 1]);
        }
    }
    assert forall|a: int, b: int| 0 <= a < b < i + 1 implies #[trigger] new_order[a]
        != #[trigger] new_order[b] by {
        if b < pos {
        } else if b == pos {
            assert(new_order[a] == old_order[a]);
        } else if a < pos {
            assert(new_order[b] == old_order[b - 1]);
        } else if a == pos {
            assert(new_order[b] == old_order[b - 1]);
        } else {
            assert(new_order[a] == old_order[a - 1]);
            assert(new_order[b] == old_order[b - 1]);
        }
    }
    assert forall|a: usize| a < i + 1 implies #[trigger] new_order.contains(a) by {
        if a == i {
            assert(new_order[pos] == a);
        } else {
            assert(old_order.contains(a));
            let k0 = choose|k: int| 0 <= k < old_order.len() && #[trigger] old_order[k] == a;
            if k0 < pos {
                assert(new_order[k0] == a);
            } else {
                assert(new_order[k0 + 1] == a);
            }
        }
    }
    assert forall|a: int, b: int| 0 <= a < b < post.len() implies post[#[trigger] new_order[a] as int]
        <= post[#[trigger] new_order[b] as int] && (post[new_order[a] as int]
        == post[new_order[b] as int] ==> new_order[a] < new_order[b]) by {
        if b < pos {
            assert(new_order[a] == old_order[a]);
            assert(new_order[b] == old_order[b]);
            assert(pre[old_order[a] as int] <= pre[old_order[b] as int]);
        } else if b == pos {
            assert(new_order[a] == old_order[a]);
        } else if a < pos {
            assert(new_order[a] == old_order[a]);
            assert(new_order[b] == old_order[b - 1]);
            assert(pre[old_order[a] as int] <= pre[old_order[b - 1] as int]);
        } else if a == pos {
            assert(new_order[b] == old_order[b - 1]);
        } else {
            assert(new_order[a] == old_order[a - 1]);
            assert(new_order[b] == old_order[b - 1]);
            assert(pre[old_order[a - 1] as int] <= pre[old_order[b - 1] as int]);
        }
    }
}

/// Where index `i` goes: after every entry, from `p` on, whose key is at most `keys[i]`.
proof fn lemma_insert_position(keys: Seq<int>, i: int, order: Seq<usize>, p: int) -> (pos: int)
    requires
        0 <= i < keys.len(),
        is_stable_sort_order(keys.subrange(0, i), order),
        0 <= p <= i,
        forall|k: int| 0 <= k < p ==> keys[#[trigger] order[k] as int] <= keys[i],
    ensures
        p <= pos <= i,
        forall|k: int| 0 <= k < pos ==> keys[#[trigger] order[k] as int] <= keys[i],
        forall|k: int| pos <= k < i ==> keys[#[trigger] order[k] as int] > keys[i],
    decreases i - p,
{
    let pre = keys.subrange(0, i);
    assert(forall|k: int| 0 <= k < i ==> #[trigger] order[k] < i);
    if p == i {
        p
    } else if keys[order[p] as int] > keys[i] {
        assert forall|k: int| p <= k < i implies keys[#[trigger] order[k] as int] > keys[i] by {
            if k > p {
                assert(pre[order[p] as int] <= pre[order[k] as int]);
            }
        }
        p
    } else {
        lemma_insert_position(keys, i, order, p + 1)
    }
}

/// The first `i` keys have a stable sorting order.
proof fn lemma_prefix_has_stable_order(keys: Seq<int>, i: int) -> (order: Seq<usize>)
    requires
        0 <= i <= keys.len(),
        keys.len() <= usize::MAX,
    ensures
        is_stable_sort_order(keys.subrange(0, i), order),
    decreases i,
{
    if i == 0 {
        let order = Seq::<usize>::empty();
        assert(is_stable_sort_order(keys.subrange(0, 0), order));
        order
    } else {
        let prev = lemma_prefix_has_stable_order(keys, i - 1);
        let pos = lemma_insert_position(keys, i - 1, prev, 0);
        lemma_insert_keeps_stable_order(keys, i - 1, prev, pos);
        prev.insert(pos, (i - 1) as usize)
    }
}

/// Every list of keys has a stable sorting order, so `stable_order(keys)` is one.
pub proof fn lemma_stable_order_exists(keys: Seq<int>)
    requires
        keys.len() <= usize::MAX,
    ensures
        is_stable_sort_order(keys, stable_order(keys)),
{
    let order = lemma_prefix_has_stable_order(keys, keys.len() as int);
    assert(keys.subrange(0, keys.len() as int) =~= keys);
}

/// The indices of `keys` in stable sorted order (insertion sort).
pub fn stable_sort_order(keys: &Vec<i128>) -> (order: Vec<usize>)
    ensures
        is_stable_sort_order(int_keys(keys@), order@),
        order@ == stable_order(int_keys(keys@)),
{
    let ghost ks = int_keys(keys@);
    let n = keys.len();
    let mut order: Vec<usize> = Vec::new();
    let mut i: usize = 0;
    while i < n
        invariant
            n == keys.len(),
            ks == int_keys(keys@),
            0 <= i <= n,
            is_stable_sort_order(ks.subrange(0, i as int), order@),
        decreases n - i,
    {
        let ghost old_order = order@;
        let ghost pre = ks.subrange(0, i as int);
        let key = keys[i];
        let mut pos: usize = 0;
        while pos < order.len() && keys[order[pos]] <= key
            invariant
                n == keys.len(),
                ks == int_keys(keys@),
                i < n,
                key == keys@[i as int],
                order@ == old_order,
                old_order.len() == i,
                pre == ks.subrange(0, i as int),
                is_stable_sort_order(pre, old_order),
                0 <= pos <= order.len(),
                forall|k: int| 0 <= k < pos ==> ks[#[trigger] old_order[k] as int] <= key,
            decreases order.len() - pos,
        {
            assert(old_order[pos as int] < i);
            assert(ks[old_order[pos as int] as int] == keys@[old_order[pos as int] as int]);
            pos = pos + 1;
        }
        assert(forall|k: int| 0 <= k < i ==> #[trigger] old_order[k] < i);
        if pos < order.len() {
            assert(ks[old_order[pos as int] as int] > key);
            assert forall|k: int| pos <= k < i implies ks[#[trigger] old_order[k] as int] > key by {
                if k > pos {
                    assert(pre[old_order[pos as int] as int] <= pre[old_order[k] as int]);
                }
            }
        }
        assert(ks[i as int] == key);
        proof {
            lemma_insert_keeps_stable_order(ks, i as int, old_order, pos as int);
        }
        order.insert(pos, i);
        i = i + 1;
    }
    assert(ks.subrange(0, n as int) =~= ks);
    proof {
        lemma_is_the_stable_order(ks, order@);
    }
    order
}

} // verus!
