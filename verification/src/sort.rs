//! Sorting by insertion, on keys worked out beforehand.

use vstd::prelude::*;

verus! {

/// Whether the item at index `x` comes before the item at index `y`: it has
/// the smaller key, or the same key and the smaller index.
pub open spec fn comes_before(keys: Seq<i64>, x: int, y: int) -> bool {
    keys[x] < keys[y] || (keys[x] == keys[y] && x < y)
}

/// `order` lists the indices of `keys`, each once, in the order in which the
/// items come out: by ascending key, and among equal keys in the order in
/// which they stood.
pub open spec fn is_sorting_order(order: Seq<int>, keys: Seq<i64>) -> bool {
    &&& order.len() == keys.len()
    &&& forall|i: int| 0 <= i < order.len() ==> 0 <= #[trigger] order[i] < keys.len()
    &&& forall|i: int, j: int|
        0 <= i < j < order.len() ==> comes_before(keys, #[trigger] order[i], #[trigger] order[j])
}

/// `out` holds the items of `items` in the order that `order` lists.
pub open spec fn arranged<T>(items: Seq<T>, order: Seq<int>, out: Seq<T>) -> bool {
    &&& out.len() == order.len()
    &&& forall|i: int| 0 <= i < out.len() ==> #[trigger] out[i] == items[order[i]]
}

/// Sorts `a` by the keys given beside it (`keys[i]` is the key of `a[i]`),
/// smallest key first. The sort is stable: items with the same key keep the
/// order in which they stood in `a`.
pub fn sort<T: Copy>(a: &Vec<T>, keys: &Vec<i64>) -> (sorted: Vec<T>)
    requires
        keys@.len() == a@.len(),
    ensures
        sorted@.len() == a@.len(),
        sorted@.to_multiset() == a@.to_multiset(),
        exists|order: Seq<int>| #[trigger]
            is_sorting_order(order, keys@) && arranged(a@, order, sorted@),
{
    let mut sorted: Vec<T> = Vec::new();
    let mut sorted_f: Vec<i64> = Vec::new();
    let ghost mut order: Seq<int> = Seq::empty();
    let n: usize = a.len();
    let mut j: usize = 0;
    assert(a@.take(0) =~= sorted@);
    while j < n
        invariant
            n == a@.len(),
            n == keys@.len(),
            j <= n,
            sorted@.len() == j,
            sorted_f@.len() == j,
            order.len() == j,
            forall|i: int| 0 <= i < j ==> 0 <= #[trigger] order[i] < j,
            forall|i: int| 0 <= i < j ==> #[trigger] sorted@[i] == a@[order[i]],
            forall|i: int| 0 <= i < j ==> #[trigger] sorted_f@[i] == keys@[order[i]],
            forall|i1: int, i2: int|
                0 <= i1 < i2 < j ==> comes_before(keys@, #[trigger] order[i1], #[trigger] order[i2]),
            sorted@.to_multiset() == a@.take(j as int).to_multiset(),
        decreases n - j,
    {
        let key: i64 = keys[j];
        let m: usize = sorted.len();
        let mut pos: usize = 0;
        while pos < m && key >= sorted_f[pos]
            invariant
                m == sorted_f@.len(),
                pos <= m,
                forall|i: int| 0 <= i < pos ==> sorted_f@[i] <= key,
            decreases m - pos,
        {
            pos += 1;
        }
        let ghost old_order = order;
        let ghost old_sorted = sorted@;
        let ghost old_keys = sorted_f@;
        sorted.insert(pos, a[j]);
        sorted_f.insert(pos, key);
        proof {
            order = old_order.insert(pos as int, j as int);
            vstd::seq_lib::to_multiset_insert(old_sorted, pos as int, a@[j as int]);
            assert(a@.take(j + 1) =~= a@.take(j as int).push(a@[j as int]));
            vstd::seq_lib::to_multiset_build(a@.take(j as int), a@[j as int]);
            assert forall|i1: int, i2: int| 0 <= i1 < i2 < j + 1 implies comes_before(
                keys@,
                #[trigger] order[i1],
                #[trigger] order[i2],
            ) by {
                if i1 == pos {
                    assert(order[i2] == old_order[i2 - 1]);
                    assert(old_keys[i2 - 1] == keys@[old_order[i2 - 1]]);
                    assert(old_keys[pos as int] == keys@[old_order[pos as int]]);
                    if pos < i2 - 1 {
                        assert(comes_before(keys@, old_order[pos as int], old_order[i2 - 1]));
                    }
                } else if i2 == pos {
                    assert(order[i1] == old_order[i1]);
                    assert(old_keys[i1] == keys@[old_order[i1]]);
                } else if i1 < pos && i2 < pos {
                    assert(comes_before(keys@, old_order[i1], old_order[i2]));
                } else if i1 < pos {
                    assert(comes_before(keys@, old_order[i1], old_order[i2 - 1]));
                } else {
                    assert(comes_before(keys@, old_order[i1 - 1], old_order[i2 - 1]));
                }
            }
        }
        j += 1;
    }
    proof {
        assert(a@.take(n as int) =~= a@);
        assert(is_sorting_order(order, keys@) && arranged(a@, order, sorted@));
    }
    sorted
}

/// Two items that come out at different places stood at different places:
/// a sorting order names no index twice.
pub proof fn lemma_sorting_order_distinct(order: Seq<int>, keys: Seq<i64>, i: int, j: int)
    requires
        is_sorting_order(order, keys),
        0 <= i < order.len(),
        0 <= j < order.len(),
        i != j,
    ensures
        order[i] != order[j],
{
    if i < j {
        assert(comes_before(keys, order[i], order[j]));
    } else {
        assert(comes_before(keys, order[j], order[i]));
    }
}

} // verus!
