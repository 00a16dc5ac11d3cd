//! Deterministic ranking by a score key: highest score first, then lowest
//! tiebreak, then input order. Scores are handed in as `u32` keys whose order
//! is the score order (an order-preserving encoding of `f32` values); the
//! tiebreak is a `u64`, such as an id.
use vstd::prelude::*;

verus! {

/// Key `x` ranks strictly ahead of key `y`: a higher score, or an equal score
/// and a lower tiebreak.
pub open spec fn key_ahead(x: (u32, u64), y: (u32, u64)) -> bool {
    x.0 > y.0 || (x.0 == y.0 && x.1 < y.1)
}

/// Index `a` ranks ahead of index `b`: its key is ahead, or the keys are equal
/// and `a` comes first.
pub open spec fn ranks_before(keys: Seq<(u32, u64)>, a: int, b: int) -> bool {
    key_ahead(keys[a], keys[b]) || (keys[a] == keys[b] && a < b)
}

/// `x` stands somewhere in `order`.
pub open spec fn occurs(order: Seq<usize>, x: int) -> bool {
    exists|i: int| 0 <= i < order.len() && order[i] == x
}

/// `order` lists each of the indices `0..n` exactly once.
pub open spec fn is_permutation(order: Seq<usize>, n: nat) -> bool {
    &&& order.len() == n
    &&& forall|i: int| 0 <= i < n ==> #[trigger] order[i] < n
    &&& forall|i: int, j: int| 0 <= i < j < n ==> order[i] != order[j]
    &&& forall|x: int| 0 <= x < n ==> #[trigger] occurs(order, x)
}

/// `order` is the ranking of `keys`: every index once, each ahead of all that
/// follow it.
pub open spec fn is_ranking(keys: Seq<(u32, u64)>, order: Seq<usize>) -> bool {
    &&& is_permutation(order, keys.len())
    &&& forall|i: int, j: int|
        0 <= i < j < order.len() ==> ranks_before(keys, #[trigger] order[i] as int, #[trigger] order[j] as int)
}

/// The keys in the order that `order` lists them.
pub open spec fn reorder(keys: Seq<(u32, u64)>, order: Seq<usize>) -> Seq<(u32, u64)> {
    Seq::new(order.len(), |i: int| keys[order[i] as int])
}

/// The indices of `keys` from highest key to lowest; equal keys keep their
/// input order.
pub fn rank_descending(keys: &Vec<(u32, u64)>) -> (r: Vec<usize>)
    ensures
        is_ranking(keys@, r@),
{
    let mut order: Vec<usize> = Vec::new();
    let mut x: usize = 0;
    while x < keys.len()
        invariant
            x <= keys.len(),
            order.len() == x,
            forall|i: int| 0 <= i < x ==> #[trigger] order@[i] < x,
            forall|i: int, j: int| 0 <= i < j < x ==> order@[i] != order@[j],
            forall|y: int| 0 <= y < x ==> #[trigger] occurs(order@, y),
            forall|i: int, j: int|
                0 <= i < j < x ==> ranks_before(keys@, #[trigger] order@[i] as int, #[trigger] order@[j] as int),
        decreases keys.len() - x,
    {
        let kx = keys[x];
        let mut p: usize = 0;
        while p < order.len() && !(kx.0 > keys[order[p]].0 || (kx.0 == keys[order[p]].0 && kx.1 < keys[order[p]].1))
            invariant
                p <= order.len() == x < keys.len(),
                kx == keys@[x as int],
                forall|i: int| 0 <= i < x ==> #[trigger] order@[i] < x,
                forall|i: int| 0 <= i < p ==> !key_ahead(kx, keys@[#[trigger] order@[i] as int]),
            decreases order.len() - p,
        {
            p = p + 1;
        }
        let ghost old_order = order@;
        order.insert(p, x);
        proof {
            old_order.insert_ensures(p as int, x);
            let o = order@;
            assert(o =~= old_order.insert(p as int, x));
            assert forall|i: int| 0 <= i < x + 1 implies #[trigger] o[i] < x + 1 by {
                if i < p {
                    assert(o[i] == old_order[i]);
                } else if i > p {
                    assert(o[i] == old_order[i - 1]);
                }
            }
            assert forall|i: int, j: int| 0 <= i < j < x + 1 implies o[i] != o[j] by {
                if i < p && j < p {
                    assert(o[i] == old_order[i] && o[j] == old_order[j]);
                } else if i < p && j == p {
                    assert(o[i] == old_order[i]);
                } else if i < p && j > p {
                    assert(o[i] == old_order[i] && o[j] == old_order[j - 1]);
                } else if i == p {
                    assert(o[j] == old_order[j - 1]);
                } else {
                    assert(o[i] == old_order[i - 1] && o[j] == old_order[j - 1]);
                }
            }
            assert forall|y: int| 0 <= y < x + 1 implies #[trigger] occurs(o, y) by {
                if y == x {
                    assert(o[p as int] == y);
                } else {
                    assert(occurs(old_order, y));
                    let i = choose|i: int| 0 <= i < old_order.len() && old_order[i] == y;
                    if i < p {
                        assert(o[i] == y);
                    } else {
                        assert(o[i + 1] == y);
                    }
                }
            }
            assert forall|i: int, j: int| 0 <= i < j < x + 1 implies ranks_before(keys@, #[trigger] o[i] as int, #[trigger] o[j] as int) by {
                if i < p && j < p {
                    assert(o[i] == old_order[i] && o[j] == old_order[j]);
                } else if i < p && j == p {
                    assert(o[i] == old_order[i]);
                    assert(!key_ahead(kx, keys@[old_order[i] as int]));
                } else if i < p && j > p {
                    assert(o[i] == old_order[i] && o[j] == old_order[j - 1]);
                } else if i == p {
                    assert(o[j] == old_order[j - 1]);
                    assert(p < old_order.len());
                    assert(key_ahead(kx, keys@[old_order[p as int] as int]));
                    if j - 1 > p {
                        assert(ranks_before(keys@, old_order[p as int] as int, old_order[j - 1] as int));
                    }
                } else {
                    assert(o[i] == old_order[i - 1] && o[j] == old_order[j - 1]);
                }
            }
        }
        x = x + 1;
    }
    order
}

/// Ranking a list that is already in ranked order changes nothing: once the
/// keys are listed in the order of their ranking, the ranking of that list is
/// the identity. So re-ranking a ranked list gives the same list.
pub proof fn lemma_rerank_is_identity(keys: Seq<(u32, u64)>, first: Seq<usize>, second: Seq<usize>)
    requires
        is_ranking(keys, first),
        is_ranking(reorder(keys, first), second),
    ensures
        forall|i: int| 0 <= i < keys.len() ==> #[trigger] second[i] == i,
{
    let k2 = reorder(keys, first);
    assert forall|a: int, b: int| 0 <= a < b < k2.len() implies !key_ahead(k2[b], k2[a]) by {
        assert(ranks_before(keys, first[a] as int, first[b] as int));
    }
    lemma_ranking_of_sorted(k2, second, 0);
}

proof fn lemma_ranking_of_sorted(keys: Seq<(u32, u64)>, order: Seq<usize>, i: int)
    requires
        is_ranking(keys, order),
        forall|a: int, b: int| 0 <= a < b < keys.len() ==> !key_ahead(keys[b], keys[a]),
        0 <= i <= keys.len(),
        forall|j: int| 0 <= j < i ==> #[trigger] order[j] == j,
    ensures
        forall|j: int| 0 <= j < keys.len() ==> #[trigger] order[j] == j,
    decreases keys.len() - i,
{
    if i < keys.len() {
        let n = keys.len();
        assert(order[i] >= i) by {
            if order[i] < i {
                let j = order[i] as int;
                assert(order[j] == j);
            }
        }
        if order[i] > i {
            assert(occurs(order, i));
            let q = choose|q: int| 0 <= q < order.len() && order[q] == i;
            if q < i {
                assert(order[q] == q);
            }
            assert(q > i);
            assert(ranks_before(keys, order[i] as int, order[q] as int));
            assert(!key_ahead(keys[order[i] as int], keys[i]));
        }
        lemma_ranking_of_sorted(keys, order, i + 1);
    }
}

/// `order` is the head of the ranking of `keys`: `min(k, n)` distinct indices
/// in ranked order, each ahead of every index left out.
pub open spec fn is_top_ranking(keys: Seq<(u32, u64)>, order: Seq<usize>, k: nat) -> bool {
    &&& order.len() == if k <= keys.len() { k } else { keys.len() }
    &&& forall|i: int| 0 <= i < order.len() ==> #[trigger] order[i] < keys.len()
    &&& forall|i: int, j: int|
        0 <= i < j < order.len() ==> ranks_before(keys, #[trigger] order[i] as int, #[trigger] order[j] as int)
    &&& forall|x: int, i: int|
        0 <= x < keys.len() && !order.contains(x as usize) && 0 <= i < order.len()
            ==> #[trigger] ranks_before(keys, order[i] as int, x)
}

/// The first `top_k` indices of the ranking of `keys` (all of them when no
/// bound is given).
pub fn rank_top(keys: &Vec<(u32, u64)>, top_k: Option<usize>) -> (r: Vec<usize>)
    ensures
        is_top_ranking(keys@, r@, match top_k {
            Some(k) => k as nat,
            None => keys.len() as nat,
        }),
{
    let mut full = rank_descending(keys);
    let k = match top_k {
        Some(k) => if k <= full.len() { k } else { full.len() },
        None => full.len(),
    };
    let ghost f = full@;
    full.truncate(k);
    proof {
        assert(full@ =~= f.take(k as int));
        assert forall|x: int, i: int|
            0 <= x < keys.len() && !full@.contains(x as usize) && 0 <= i < full@.len()
            implies #[trigger] ranks_before(keys@, full@[i] as int, x) by {
            assert(occurs(f, x));
            let q = choose|q: int| 0 <= q < f.len() && f[q] == x;
            if q < k {
                assert(full@[q] == x as usize);
            }
            assert(full@[i] == f[i]);
        }
    }
    full
}

/// The order of long-range links `(a, b, score)` for listing: highest score
/// first, then by `a`, then by `b`, at most `top_k` of them.
pub open spec fn link_keys(links: Seq<(u32, u32, u32)>) -> Seq<(u32, u64)> {
    Seq::new(links.len(), |i: int| (links[i].2, (links[i].0 as u64 * 0x1_0000_0000 + links[i].1 as u64) as u64))
}

/// Indices of `links`, given as `(a, b, score key)`, in listing order, cut to
/// `top_k`.
pub fn long_range_order(links: &Vec<(u32, u32, u32)>, top_k: Option<usize>) -> (r: Vec<usize>)
    ensures
        is_top_ranking(link_keys(links@), r@, match top_k {
            Some(k) => k as nat,
            None => links.len() as nat,
        }),
{
    let mut keys: Vec<(u32, u64)> = Vec::new();
    let mut i: usize = 0;
    while i < links.len()
        invariant
            i <= links.len(),
            keys@ == link_keys(links@).take(i as int),
        decreases links.len() - i,
    {
        let (a, b, s) = links[i];
        assert((a as u64) * 0x1_0000_0000 + (b as u64) <= 0xFFFF_FFFF_FFFF_FFFF) by (nonlinear_arith)
            requires a <= 0xFFFF_FFFF, b <= 0xFFFF_FFFF;
        keys.push((s, (a as u64) * 0x1_0000_0000 + (b as u64)));
        assert(keys@ =~= link_keys(links@).take(i + 1));
        i = i + 1;
    }
    assert(keys@ =~= link_keys(links@));
    rank_top(&keys, top_k)
}

/// The clusters whose centroids score highest, at most three: ids of
/// `centroids`, given as `(cluster id, score key)`, ranked by score and then
/// by id.
pub open spec fn centroid_keys(centroids: Seq<(usize, u32)>) -> Seq<(u32, u64)> {
    Seq::new(centroids.len(), |i: int| (centroids[i].1, centroids[i].0 as u64))
}

/// Clusters that receive the boost.
pub const BOOSTED_CLUSTERS: usize = 3;

/// For each row label, whether it is the label of one of the (at most three)
/// best-scoring centroids.
pub fn boosted_rows(labels: &Vec<usize>, centroids: &Vec<(usize, u32)>) -> (r: Vec<bool>)
    ensures
        r.len() == labels.len(),
        exists|top: Seq<usize>|
            #[trigger] is_top_ranking(centroid_keys(centroids@), top, BOOSTED_CLUSTERS as nat)
                && forall|i: int|
                0 <= i < labels.len() ==> #[trigger] r@[i] == exists|t: int|
                    0 <= t < top.len() && centroids@[top[t] as int].0 == labels@[i],
{
    let mut keys: Vec<(u32, u64)> = Vec::new();
    let mut i: usize = 0;
    while i < centroids.len()
        invariant
            i <= centroids.len(),
            keys@ == centroid_keys(centroids@).take(i as int),
        decreases centroids.len() - i,
    {
        keys.push((centroids[i].1, centroids[i].0 as u64));
        assert(keys@ =~= centroid_keys(centroids@).take(i + 1));
        i = i + 1;
    }
    assert(keys@ =~= centroid_keys(centroids@));
    let top = rank_top(&keys, Some(BOOSTED_CLUSTERS));
    let mut r: Vec<bool> = Vec::new();
    let mut j: usize = 0;
    while j < labels.len()
        invariant
            j <= labels.len(),
            r.len() == j,
            is_top_ranking(centroid_keys(centroids@), top@, BOOSTED_CLUSTERS as nat),
            forall|m: int| 0 <= m < j ==> #[trigger] r@[m] == exists|t: int|
                0 <= t < top@.len() && centroids@[top@[t] as int].0 == labels@[m],
        decreases labels.len() - j,
    {
        let mut hit = false;
        let mut t: usize = 0;
        while t < top.len()
            invariant
                t <= top.len(),
                j < labels.len(),
                is_top_ranking(centroid_keys(centroids@), top@, BOOSTED_CLUSTERS as nat),
                hit == exists|u: int| 0 <= u < t && centroids@[top@[u] as int].0 == labels@[j as int],
            decreases top.len() - t,
        {
            if centroids[top[t]].0 == labels[j] {
                hit = true;
            }
            t = t + 1;
        }
        r.push(hit);
        j = j + 1;
    }
    r
}

/// The ids `ids` in ascending order: each position of the result holds the id
/// at the matching position of a permutation of `ids`.
pub fn ascending_ids(ids: &Vec<u32>) -> (r: Vec<u32>)
    ensures
        r.len() == ids.len(),
        exists|order: Seq<usize>| #[trigger] is_permutation(order, ids.len() as nat)
            && forall|i: int| 0 <= i < r.len() ==> r@[i] == ids@[#[trigger] order[i] as int],
        forall|i: int, j: int| 0 <= i < j < r.len() ==> r@[i] <= r@[j],
{
    let mut keys: Vec<(u32, u64)> = Vec::new();
    let mut i: usize = 0;
    while i < ids.len()
        invariant
            i <= ids.len(),
            keys.len() == i,
            forall|k: int| 0 <= k < i ==> #[trigger] keys@[k] == (0u32, ids@[k] as u64),
        decreases ids.len() - i,
    {
        keys.push((0, ids[i] as u64));
        i = i + 1;
    }
    let order = rank_descending(&keys);
    let mut r: Vec<u32> = Vec::new();
    let mut j: usize = 0;
    while j < order.len()
        invariant
            j <= order.len() == ids.len() == keys.len(),
            is_ranking(keys@, order@),
            forall|k: int| 0 <= k < ids.len() ==> #[trigger] keys@[k] == (0u32, ids@[k] as u64),
            r.len() == j,
            forall|k: int| 0 <= k < j ==> r@[k] == ids@[#[trigger] order@[k] as int],
        decreases order.len() - j,
    {
        r.push(ids[order[j]]);
        j = j + 1;
    }
    proof {
        assert forall|a: int, b: int| 0 <= a < b < r.len() implies r@[a] <= r@[b] by {
            assert(ranks_before(keys@, order@[a] as int, order@[b] as int));
        }
        assert(is_permutation(order@, ids.len() as nat));
    }
    r
}

} // verus!
