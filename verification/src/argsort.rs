//! The indices that would sort a slice of integers, in a stable order.
use vstd::prelude::*;

verus! {

/// Index `i` comes before index `j` when its value is smaller, or when the
/// values are equal and `i` is the smaller index (a stable order).
pub open spec fn key_lt(data: Seq<i64>, i: int, j: int) -> bool {
    data[i] < data[j] || (data[i] == data[j] && i < j)
}

/// `k` stands somewhere in `order`.
pub open spec fn lists(order: Seq<usize>, k: int) -> bool {
    exists|p: int| 0 <= p < order.len() && order[p] == k
}

/// `order` lists each of the indices `0..m` exactly once, sorted by `key_lt`.
pub open spec fn sorts_prefix(data: Seq<i64>, m: int, order: Seq<usize>) -> bool {
    &&& order.len() == m
    &&& forall|p: int| 0 <= p < m ==> #[trigger] order[p] < m
    &&& forall|k: int| 0 <= k < m ==> #[trigger] lists(order, k)
    &&& forall|p: int, q: int|
        0 <= p < q < m ==> key_lt(data, #[trigger] order[p] as int, #[trigger] order[q] as int)
}

/// `order` is the stable argsort of `data`: a permutation of its indices
/// under which the values do not decrease, equal values keeping index order.
pub open spec fn is_argsort(data: Seq<i64>, order: Seq<usize>) -> bool {
    sorts_prefix(data, data.len() as int, order)
}

/// The stable argsort of `data` (it exists and is unique, see
/// `lemma_argsort_exists` and `lemma_argsort_unique`).
pub open spec fn argsort_of(data: Seq<i64>) -> Seq<usize> {
    choose|order: Seq<usize>| is_argsort(data, order)
}

/// Where index `m` goes in an order of `0..m`: before the first index whose
/// value is larger than `data[m]`.
spec fn is_insert_pos(data: Seq<i64>, m: int, order: Seq<usize>, pos: int) -> bool {
    &&& 0 <= pos <= m
    &&& forall|p: int| 0 <= p < pos ==> data[#[trigger] order[p] as int] <= data[m]
    &&& pos < m ==> data[order[pos] as int] > data[m]
}

/// Inserting index `m` at its place extends an order of `0..m` to one of `0..m+1`.
proof fn lemma_insert_extends(data: Seq<i64>, m: int, order: Seq<usize>, pos: int)
    requires
        0 <= m < data.len(),
        m < usize::MAX,
        sorts_prefix(data, m, order),
        is_insert_pos(data, m, order, pos),
    ensures
        sorts_prefix(data, m + 1, order.insert(pos, m as usize)),
{
    let next = order.insert(pos, m as usize);
    assert(next.len() == m + 1);
    assert forall|p: int| pos < p < m + 1 implies data[#[trigger] next[p] as int] > data[m] by {
        assert(next[p] == order[p - 1]);
        if p - 1 > pos {
            assert(key_lt(data, order[pos] as int, order[p - 1] as int));
        }
    }
    assert forall|p: int| 0 <= p < m + 1 implies #[trigger] next[p] < m + 1 by {
        if p < pos {
            assert(next[p] == order[p]);
        } else if p > pos {
            assert(next[p] == order[p - 1]);
        }
    }
    assert forall|k: int| 0 <= k < m + 1 implies #[trigger] lists(next, k) by {
        if k == m {
            assert(next[pos] == k);
        } else {
            assert(lists(order, k));
            let p0 = choose|p: int| 0 <= p < m && order[p] == k;
            if p0 < pos {
                assert(next[p0] == k);
            } else {
                assert(next[p0 + 1] == k);
            }
        }
    }
    assert forall|p: int, q: int| 0 <= p < q < m + 1 implies key_lt(
        data,
        #[trigger] next[p] as int,
        #[trigger] next[q] as int,
    ) by {
        if q < pos {
            assert(next[p] == order[p] && next[q] == order[q]);
        } else if q == pos {
            assert(next[p] == order[p]);
            assert(data[order[p] as int] <= data[m]);
        } else if p < pos {
            assert(next[p] == order[p] && next[q] == order[q - 1]);
        } else if p == pos {
            assert(data[next[q] as int] > data[m]);
        } else {
            assert(next[p] == order[p - 1] && next[q] == order[q - 1]);
        }
    }
}

/// Some position satisfies `is_insert_pos`.
proof fn lemma_insert_pos_from(data: Seq<i64>, m: int, order: Seq<usize>, start: int) -> (pos: int)
    requires
        0 <= m < data.len(),
        sorts_prefix(data, m, order),
        0 <= start <= m,
        forall|p: int| 0 <= p < start ==> data[#[trigger] order[p] as int] <= data[m],
    ensures
        is_insert_pos(data, m, order, pos),
    decreases m - start,
{
    if start == m || data[order[start] as int] > data[m] {
        start
    } else {
        lemma_insert_pos_from(data, m, order, start + 1)
    }
}

/// Every prefix of the indices has an order.
proof fn lemma_prefix_sortable(data: Seq<i64>, m: int) -> (order: Seq<usize>)
    requires
        0 <= m <= data.len(),
        data.len() <= usize::MAX,
    ensures
        sorts_prefix(data, m, order),
    decreases m,
{
    if m == 0 {
        Seq::empty()
    } else {
        let prev = lemma_prefix_sortable(data, m - 1);
        let pos = lemma_insert_pos_from(data, m - 1, prev, 0);
        lemma_insert_extends(data, m - 1, prev, pos);
        prev.insert(pos, (m - 1) as usize)
    }
}

/// Every sequence whose indices fit in a `usize` has a stable argsort.
pub proof fn lemma_argsort_exists(data: Seq<i64>)
    requires
        data.len() <= usize::MAX,
    ensures
        is_argsort(data, argsort_of(data)),
{
    let order = lemma_prefix_sortable(data, data.len() as int);
    assert(is_argsort(data, order));
}

/// The stable argsort lists indices of `data` whose values never decrease,
/// and lists indices of equal values in increasing order.
pub proof fn lemma_argsort_orders_values(data: Seq<i64>, p: int, q: int)
    requires
        data.len() <= usize::MAX,
        0 <= p < q < data.len(),
    ensures
        argsort_of(data).len() == data.len(),
        argsort_of(data)[p] < data.len(),
        argsort_of(data)[q] < data.len(),
        data[argsort_of(data)[p] as int] <= data[argsort_of(data)[q] as int],
        data[argsort_of(data)[p] as int] == data[argsort_of(data)[q] as int] ==> argsort_of(data)[p]
            < argsort_of(data)[q],
{
    lemma_argsort_exists(data);
    let order = argsort_of(data);
    assert(key_lt(data, order[p] as int, order[q] as int));
}

/// The stable argsort of a sequence is unique: two orders that both sort
/// `data` stably are the same sequence.
pub proof fn lemma_argsort_unique(data: Seq<i64>, a: Seq<usize>, b: Seq<usize>)
    requires
        is_argsort(data, a),
        is_argsort(data, b),
    ensures
        a == b,
{
    lemma_agree_from(data, a, b, 0);
    assert(a =~= b);
}

proof fn lemma_agree_from(data: Seq<i64>, a: Seq<usize>, b: Seq<usize>, p: int)
    requires
        is_argsort(data, a),
        is_argsort(data, b),
        0 <= p <= data.len(),
        forall|q: int| 0 <= q < p ==> a[q] == b[q],
    ensures
        forall|q: int| 0 <= q < data.len() ==> a[q] == b[q],
    decreases data.len() - p,
{
    let n = data.len() as int;
    if p < n {
        let x = a[p];
        let y = b[p];
        if x != y {
            // where `x` stands in `b`, and `y` in `a`
            assert(lists(b, x as int));
            assert(lists(a, y as int));
            let qb = choose|q: int| 0 <= q < n && b[q] == x as int;
            let qa = choose|q: int| 0 <= q < n && a[q] == y as int;
            if qb < p {
                assert(a[qb] == x);
                assert(key_lt(data, a[qb] as int, a[p] as int));
            }
            if qa < p {
                assert(b[qa] == y);
                assert(key_lt(data, b[qa] as int, b[p] as int));
            }
            assert(key_lt(data, b[p] as int, b[qb] as int));
            assert(key_lt(data, a[p] as int, a[qa] as int));
            assert(false);
        }
        lemma_agree_from(data, a, b, p + 1);
    }
}

/// The stable argsort of `data`: the indices of `data`, ordered so that the
/// values do not decrease, and equal values keep the order of their indices.
pub fn argsort(data: &[i64]) -> (indices: Vec<usize>)
    ensures
        is_argsort(data@, indices@),
        indices@ == argsort_of(data@),
{
    let n = data.len();
    let mut indices: Vec<usize> = Vec::new();
    let mut m: usize = 0;
    while m < n
        invariant
            n == data@.len(),
            m <= n,
            sorts_prefix(data@, m as int, indices@),
        decreases n - m,
    {
        let mut pos: usize = 0;
        while pos < m && data[indices[pos]] <= data[m]
            invariant
                n == data@.len(),
                m < n,
                pos <= m,
                sorts_prefix(data@, m as int, indices@),
                forall|p: int| 0 <= p < pos ==> data@[#[trigger] indices@[p] as int] <= data@[m as int],
            decreases m - pos,
        {
            pos = pos + 1;
        }
        proof {
            lemma_insert_extends(data@, m as int, indices@, pos as int);
        }
        indices.insert(pos, m);
        m = m + 1;
    }
    proof {
        lemma_argsort_exists(data@);
        lemma_argsort_unique(data@, indices@, argsort_of(data@));
    }
    indices
}

} // verus!
