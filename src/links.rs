//! Related notes of one note, from the long-range links: each neighbour once,
//! with the best score of the links that join them, best first.
use vstd::prelude::*;
use crate::rank::{is_top_ranking, key_ahead, link_keys, long_range_order, occurs, rank_descending, ranks_before};

verus! {

/// The other end of link `l = (a, b, score key)` when it touches note `id`.
pub open spec fn other_end(l: (u32, u32, u32), id: u32) -> Option<u32> {
    if l.0 == id {
        Some(l.1)
    } else if l.1 == id {
        Some(l.0)
    } else {
        None
    }
}

/// `(neighbour, score key)` for each link that touches `id`, in link order.
pub open spec fn neighbor_entries(links: Seq<(u32, u32, u32)>, id: u32) -> Seq<(u32, u32)>
    decreases links.len(),
{
    if links.len() == 0 {
        Seq::empty()
    } else {
        let r = neighbor_entries(links.drop_last(), id);
        match other_end(links.last(), id) {
            Some(nb) => r.push((nb, links.last().2)),
            None => r,
        }
    }
}

/// `nb` is the neighbour of some entry.
pub open spec fn is_neighbor(entries: Seq<(u32, u32)>, nb: u32) -> bool {
    exists|e: int| 0 <= e < entries.len() && entries[e].0 == nb
}

/// The highest score key among the entries of neighbour `nb` (0 when none).
pub open spec fn best_key(entries: Seq<(u32, u32)>, nb: u32) -> u32
    decreases entries.len(),
{
    if entries.len() == 0 {
        0
    } else {
        let b = best_key(entries.drop_last(), nb);
        if entries.last().0 == nb && entries.last().1 > b {
            entries.last().1
        } else {
            b
        }
    }
}

proof fn lemma_best_key(entries: Seq<(u32, u32)>, nb: u32)
    ensures
        forall|e: int| 0 <= e < entries.len() && entries[e].0 == nb ==> #[trigger] entries[e].1 <= best_key(entries, nb),
        is_neighbor(entries, nb) ==> exists|e: int| 0 <= e < entries.len() && entries[e].0 == nb && entries[e].1 == best_key(entries, nb),
    decreases entries.len(),
{
    if entries.len() > 0 {
        let prev = entries.drop_last();
        lemma_best_key(prev, nb);
        assert forall|e: int| 0 <= e < entries.len() && entries[e].0 == nb implies #[trigger] entries[e].1 <= best_key(entries, nb) by {
            if e < prev.len() {
                assert(prev[e] == entries[e]);
            }
        }
        if is_neighbor(entries, nb) {
            if entries.last().0 == nb && entries.last().1 > best_key(prev, nb) {
                assert(entries[entries.len() - 1].1 == best_key(entries, nb));
            } else if is_neighbor(prev, nb) {
                let e = choose|e: int| 0 <= e < prev.len() && prev[e].0 == nb && prev[e].1 == best_key(prev, nb);
                assert(entries[e] == prev[e]);
            } else {
                let e = choose|e: int| 0 <= e < entries.len() && entries[e].0 == nb;
                if e < prev.len() {
                    assert(prev[e] == entries[e]);
                }
                assert(entries.last().0 == nb);
                assert(best_key(prev, nb) == 0) by {
                    lemma_best_key_absent(prev, nb);
                }
                assert(entries[entries.len() - 1].1 == best_key(entries, nb));
            }
        }
    }
}

proof fn lemma_best_key_absent(entries: Seq<(u32, u32)>, nb: u32)
    requires
        !is_neighbor(entries, nb),
    ensures
        best_key(entries, nb) == 0,
    decreases entries.len(),
{
    if entries.len() > 0 {
        let prev = entries.drop_last();
        assert(!is_neighbor(prev, nb)) by {
            if is_neighbor(prev, nb) {
                let e = choose|e: int| 0 <= e < prev.len() && prev[e].0 == nb;
                assert(entries[e] == prev[e]);
            }
        }
        assert(entries[entries.len() - 1].0 != nb);
        lemma_best_key_absent(prev, nb);
    }
}

/// `(neighbour, score key)` pairs ordered for listing: best score first, then
/// lowest neighbour id.
pub open spec fn pair_ahead(x: (u32, u32), y: (u32, u32)) -> bool {
    key_ahead((x.1, x.0 as u64), (y.1, y.0 as u64))
}

/// Neighbour `nb` stands in `r`.
pub open spec fn listed(r: Seq<(u32, u32)>, nb: u32) -> bool {
    exists|t: int| 0 <= t < r.len() && r[t].0 == nb
}

/// The neighbours of `id` along `links` (given as `(a, b, score key)`), each
/// once with its best score key, ordered by score and then by id, at most
/// `top_k` of them.
pub fn related_note_links(links: &Vec<(u32, u32, u32)>, id: u32, top_k: Option<usize>) -> (r: Vec<(u32, u32)>)
    ensures
        ({
            let entries = neighbor_entries(links@, id);
            &&& forall|t: int| 0 <= t < r.len() ==> is_neighbor(entries, #[trigger] r@[t].0)
                && r@[t].1 == best_key(entries, r@[t].0)
            &&& forall|s: int, t: int| 0 <= s < t < r.len() ==> pair_ahead(#[trigger] r@[s], #[trigger] r@[t])
            &&& match top_k {
                Some(k) => r.len() <= k,
                None => true,
            }
            &&& forall|nb: u32| #[trigger] is_neighbor(entries, nb) && !listed(r@, nb) ==> (top_k matches Some(k) && r.len() == k
                && forall|t: int| 0 <= t < r.len() ==> pair_ahead(#[trigger] r@[t], (nb, best_key(entries, nb))))
        }),
{
    let ghost entries = neighbor_entries(links@, id);
    let mut ent: Vec<(u32, u32)> = Vec::new();
    let mut i: usize = 0;
    assert(links@.subrange(0, 0) =~= Seq::<(u32, u32, u32)>::empty());
    while i < links.len()
        invariant
            i <= links.len(),
            ent@ == neighbor_entries(links@.subrange(0, i as int), id),
        decreases links.len() - i,
    {
        assert(links@.subrange(0, i + 1).drop_last() =~= links@.subrange(0, i as int));
        let (a, b, s) = links[i];
        if a == id {
            ent.push((b, s));
        } else if b == id {
            ent.push((a, s));
        }
        i = i + 1;
    }
    assert(links@.subrange(0, links.len() as int) =~= links@);
    let mut keys: Vec<(u32, u64)> = Vec::new();
    let mut j: usize = 0;
    while j < ent.len()
        invariant
            j <= ent.len(),
            keys.len() == j,
            forall|e: int| 0 <= e < j ==> #[trigger] keys@[e] == (ent@[e].1, ent@[e].0 as u64),
        decreases ent.len() - j,
    {
        keys.push((ent[j].1, ent[j].0 as u64));
        j = j + 1;
    }
    let full = rank_descending(&keys);
    let ghost ks = keys@;
    let mut out: Vec<(u32, u32)> = Vec::new();
    let mut p: usize = 0;
    while p < full.len()
        invariant
            p <= full.len() == ent.len() == keys.len(),
            ent@ == entries,
            ks == keys@,
            forall|e: int| 0 <= e < ent.len() ==> #[trigger] keys@[e] == (ent@[e].1, ent@[e].0 as u64),
            crate::rank::is_ranking(keys@, full@),
            forall|t: int| 0 <= t < out.len() ==> exists|q: int|
                0 <= q < p && #[trigger] out@[t] == ent@[full@[q] as int] && forall|q2: int|
                    0 <= q2 < q ==> ent@[full@[q2] as int].0 != out@[t].0,
            forall|q: int| 0 <= q < p ==> listed(out@, #[trigger] ent@[full@[q] as int].0),
            forall|s: int, t: int| 0 <= s < t < out.len() ==> pair_ahead(#[trigger] out@[s], #[trigger] out@[t]),
        decreases full.len() - p,
    {
        let e = ent[full[p]];
        let mut seen = false;
        let mut t: usize = 0;
        while t < out.len()
            invariant
                t <= out.len(),
                seen == exists|u: int| 0 <= u < t && out@[u].0 == e.0,
            decreases out.len() - t,
        {
            if out[t].0 == e.0 {
                seen = true;
            }
            t = t + 1;
        }
        let ghost old_out = out@;
        if !seen {
            proof {
                assert forall|s: int| 0 <= s < old_out.len() implies pair_ahead(old_out[s], e) by {
                    let q = choose|q: int|
                        0 <= q < p && #[trigger] old_out[s] == ent@[full@[q] as int] && forall|q2: int|
                            0 <= q2 < q ==> ent@[full@[q2] as int].0 != old_out[s].0;
                    assert(ranks_before(keys@, full@[q] as int, full@[p as int] as int));
                    assert(keys@[full@[q] as int] == (ent@[full@[q] as int].1, ent@[full@[q] as int].0 as u64));
                    assert(keys@[full@[p as int] as int] == (e.1, e.0 as u64));
                }
            }
            out.push(e);
            proof {
                assert forall|s: int, t2: int| 0 <= s < t2 < out.len() implies pair_ahead(#[trigger] out@[s], #[trigger] out@[t2]) by {
                    if t2 < old_out.len() {
                        assert(out@[s] == old_out[s] && out@[t2] == old_out[t2]);
                    } else {
                        assert(out@[s] == old_out[s]);
                    }
                }
                assert forall|tt: int| 0 <= tt < out.len() implies exists|q: int|
                    0 <= q < p + 1 && #[trigger] out@[tt] == ent@[full@[q] as int] && forall|q2: int|
                        0 <= q2 < q ==> ent@[full@[q2] as int].0 != out@[tt].0 by {
                    if tt < old_out.len() {
                        assert(out@[tt] == old_out[tt]);
                        let q = choose|q: int|
                            0 <= q < p && #[trigger] old_out[tt] == ent@[full@[q] as int] && forall|q2: int|
                                0 <= q2 < q ==> ent@[full@[q2] as int].0 != old_out[tt].0;
                        assert(out@[tt] == ent@[full@[q] as int]);
                    } else {
                        assert forall|q2: int| 0 <= q2 < p implies ent@[full@[q2] as int].0 != out@[tt].0 by {
                            assert(listed(old_out, ent@[full@[q2] as int].0));
                        }
                        assert(out@[tt] == ent@[full@[p as int] as int]);
                    }
                }
                assert forall|q: int| 0 <= q < p + 1 implies listed(out@, #[trigger] ent@[full@[q] as int].0) by {
                    if q < p {
                        assert(listed(old_out, ent@[full@[q] as int].0));
                        let u = choose|u: int| 0 <= u < old_out.len() && old_out[u].0 == ent@[full@[q] as int].0;
                        assert(out@[u] == old_out[u]);
                    } else {
                        assert(out@[out.len() - 1] == e);
                    }
                }
            }
        } else {
            proof {
                assert(listed(out@, e.0));
            }
        }
        p = p + 1;
    }
    proof {
        assert forall|t: int| 0 <= t < out.len() implies is_neighbor(entries, #[trigger] out@[t].0)
            && out@[t].1 == best_key(entries, out@[t].0) by {
            let q = choose|q: int|
                0 <= q < p && #[trigger] out@[t] == ent@[full@[q] as int] && forall|q2: int|
                    0 <= q2 < q ==> ent@[full@[q2] as int].0 != out@[t].0;
            let nb = out@[t].0;
            let x = full@[q] as int;
            lemma_best_key(entries, nb);
            assert(entries[x].0 == nb);
            let e2 = choose|e2: int| 0 <= e2 < entries.len() && entries[e2].0 == nb && entries[e2].1 == best_key(entries, nb);
            assert(occurs(full@, e2));
            let q2 = choose|q2: int| 0 <= q2 < full@.len() && full@[q2] == e2;
            if q2 > q {
                assert(ranks_before(keys@, full@[q] as int, full@[q2] as int));
                assert(keys@[e2] == (ent@[e2].1, ent@[e2].0 as u64));
                assert(keys@[x] == (ent@[x].1, ent@[x].0 as u64));
            }
            assert(entries[x].1 <= best_key(entries, nb));
        }
    }
    let ghost all = out@;
    let k = match top_k {
        Some(k) => if k <= out.len() { k } else { out.len() },
        None => out.len(),
    };
    out.truncate(k);
    proof {
        assert(out@ =~= all.take(k as int));
        assert forall|nb: u32| #[trigger] is_neighbor(entries, nb) && !listed(out@, nb) implies (top_k matches Some(kk) && out.len() == kk
            && forall|t: int| 0 <= t < out.len() ==> pair_ahead(#[trigger] out@[t], (nb, best_key(entries, nb)))) by {
            let e = choose|e: int| 0 <= e < entries.len() && entries[e].0 == nb;
            assert(occurs(full@, e));
            let q = choose|q: int| 0 <= q < full@.len() && full@[q] == e;
            assert(listed(all, ent@[full@[q] as int].0));
            let u = choose|u: int| 0 <= u < all.len() && all[u].0 == nb;
            if u < k {
                assert(out@[u] == all[u]);
            }
            assert(all[u].1 == best_key(entries, nb));
            assert forall|t: int| 0 <= t < out.len() implies pair_ahead(#[trigger] out@[t], (nb, best_key(entries, nb))) by {
                assert(out@[t] == all[t]);
            }
        }
    }
    out
}

/// A square matrix of score keys, as rows.
pub open spec fn matrix_view(m: Seq<Vec<u32>>) -> Seq<Seq<u32>> {
    m.map_values(|r: Vec<u32>| r@)
}

/// `m` has `n` rows of `n` entries.
pub open spec fn is_square(m: Seq<Seq<u32>>, n: nat) -> bool {
    m.len() == n && forall|i: int| 0 <= i < n ==> (#[trigger] m[i]).len() == n
}

/// Rows `i` and `j` make a long-range pair: spectrally close (key above
/// `spec_thr`) and far in embedding space (key below `emb_thr`).
pub open spec fn is_long_range(sm: Seq<Seq<u32>>, em: Seq<Seq<u32>>, spec_thr: u32, emb_thr: u32, i: int, j: int) -> bool {
    sm[i][j] > spec_thr && em[i][j] < emb_thr
}

/// The long-range pairs `(ids[i], ids[j], sm[i][j])` of row `i` with
/// `i < j' < j`, in column order.
pub open spec fn row_pairs(ids: Seq<u32>, sm: Seq<Seq<u32>>, em: Seq<Seq<u32>>, spec_thr: u32, emb_thr: u32, i: int, j: int) -> Seq<(u32, u32, u32)>
    decreases j - i,
{
    if j <= i + 1 {
        Seq::empty()
    } else {
        let r = row_pairs(ids, sm, em, spec_thr, emb_thr, i, j - 1);
        if is_long_range(sm, em, spec_thr, emb_thr, i, j - 1) {
            r.push((ids[i], ids[j - 1], sm[i][j - 1]))
        } else {
            r
        }
    }
}

/// The long-range pairs of the rows before `i`, row by row.
pub open spec fn pairs_upto(ids: Seq<u32>, sm: Seq<Seq<u32>>, em: Seq<Seq<u32>>, spec_thr: u32, emb_thr: u32, i: int) -> Seq<(u32, u32, u32)>
    decreases i,
{
    if i <= 0 {
        Seq::empty()
    } else {
        pairs_upto(ids, sm, em, spec_thr, emb_thr, i - 1) + row_pairs(ids, sm, em, spec_thr, emb_thr, i - 1, ids.len() as int)
    }
}

/// `p` is `(ids[i], ids[j], sm[i][j])` for two rows `i < j` that make a
/// long-range pair.
pub open spec fn from_long_range_rows(p: (u32, u32, u32), ids: Seq<u32>, sm: Seq<Seq<u32>>, em: Seq<Seq<u32>>, spec_thr: u32, emb_thr: u32) -> bool {
    exists|i: int, j: int|
        0 <= i < j < ids.len() && p == (ids[i], ids[j], sm[i][j]) && #[trigger] is_long_range(sm, em, spec_thr, emb_thr, i, j)
}

/// Each entry of `ps` is the pair of two rows `i < j` that is long-range.
pub open spec fn all_from_long_range_rows(ps: Seq<(u32, u32, u32)>, ids: Seq<u32>, sm: Seq<Seq<u32>>, em: Seq<Seq<u32>>, spec_thr: u32, emb_thr: u32) -> bool {
    forall|t: int| 0 <= t < ps.len() ==> from_long_range_rows(#[trigger] ps[t], ids, sm, em, spec_thr, emb_thr)
}

proof fn lemma_row_pairs(ids: Seq<u32>, sm: Seq<Seq<u32>>, em: Seq<Seq<u32>>, spec_thr: u32, emb_thr: u32, i: int, j: int)
    requires
        0 <= i,
        j <= ids.len(),
    ensures
        all_from_long_range_rows(row_pairs(ids, sm, em, spec_thr, emb_thr, i, j), ids, sm, em, spec_thr, emb_thr),
    decreases j - i,
{
    if j > i + 1 {
        lemma_row_pairs(ids, sm, em, spec_thr, emb_thr, i, j - 1);
        let r = row_pairs(ids, sm, em, spec_thr, emb_thr, i, j - 1);
        let full = row_pairs(ids, sm, em, spec_thr, emb_thr, i, j);
        assert forall|t: int| 0 <= t < full.len() implies from_long_range_rows(#[trigger] full[t], ids, sm, em, spec_thr, emb_thr) by {
            if t < r.len() {
                assert(full[t] == r[t]);
                assert(from_long_range_rows(r[t], ids, sm, em, spec_thr, emb_thr));
            } else {
                assert(full[t] == (ids[i], ids[j - 1], sm[i][j - 1]));
                assert(is_long_range(sm, em, spec_thr, emb_thr, i, j - 1));
            }
        }
    }
}

proof fn lemma_pairs_upto(ids: Seq<u32>, sm: Seq<Seq<u32>>, em: Seq<Seq<u32>>, spec_thr: u32, emb_thr: u32, i: int)
    requires
        i <= ids.len(),
    ensures
        all_from_long_range_rows(pairs_upto(ids, sm, em, spec_thr, emb_thr, i), ids, sm, em, spec_thr, emb_thr),
    decreases i,
{
    if i > 0 {
        lemma_pairs_upto(ids, sm, em, spec_thr, emb_thr, i - 1);
        lemma_row_pairs(ids, sm, em, spec_thr, emb_thr, i - 1, ids.len() as int);
        let a = pairs_upto(ids, sm, em, spec_thr, emb_thr, i - 1);
        let b = row_pairs(ids, sm, em, spec_thr, emb_thr, i - 1, ids.len() as int);
        let full = pairs_upto(ids, sm, em, spec_thr, emb_thr, i);
        assert(full == a + b);
        assert forall|t: int| 0 <= t < full.len() implies from_long_range_rows(#[trigger] full[t], ids, sm, em, spec_thr, emb_thr) by {
            if t < a.len() {
                assert(full[t] == a[t]);
                assert(from_long_range_rows(a[t], ids, sm, em, spec_thr, emb_thr));
            } else {
                assert(full[t] == b[t - a.len()]);
                assert(from_long_range_rows(b[t - a.len()], ids, sm, em, spec_thr, emb_thr));
            }
        }
    }
}

/// Link `l` joins the ids of rows `i < j` whose embedding key is below
/// `emb_thr`.
pub open spec fn joins_distant_rows(l: (u32, u32, u32), ids: Seq<u32>, em: Seq<Seq<u32>>, emb_thr: u32) -> bool {
    exists|i: int, j: int| 0 <= i < j < ids.len() && ids[i] == l.0 && ids[j] == l.1 && #[trigger] em[i][j] < emb_thr
}

/// Every long-range link joins a lower id to a higher one, with a spectral
/// score key above the spectral threshold and an embedding score key below
/// the embedding threshold, when the ids are strictly ascending.
pub proof fn lemma_long_range_links_are_ordered_pairs(
    ids: Seq<u32>,
    sm: Seq<Seq<u32>>,
    em: Seq<Seq<u32>>,
    spec_thr: u32,
    emb_thr: u32,
    links: Seq<(u32, u32, u32)>,
)
    requires
        forall|i: int, j: int| 0 <= i < j < ids.len() ==> ids[i] < ids[j],
        all_from_long_range_rows(links, ids, sm, em, spec_thr, emb_thr),
    ensures
        forall|t: int| 0 <= t < links.len() ==> (#[trigger] links[t]).0 < links[t].1 && links[t].2 > spec_thr,
        forall|t: int| 0 <= t < links.len() ==> joins_distant_rows(#[trigger] links[t], ids, em, emb_thr),
{
    assert forall|t: int| 0 <= t < links.len() implies (#[trigger] links[t]).0 < links[t].1 && links[t].2 > spec_thr by {
        assert(from_long_range_rows(links[t], ids, sm, em, spec_thr, emb_thr));
        let (i, j) = choose|i: int, j: int|
            0 <= i < j < ids.len() && links[t] == (ids[i], ids[j], sm[i][j]) && #[trigger] is_long_range(sm, em, spec_thr, emb_thr, i, j);
        assert(ids[i] < ids[j]);
    }
    assert forall|t: int| 0 <= t < links.len() implies joins_distant_rows(#[trigger] links[t], ids, em, emb_thr) by {
        assert(from_long_range_rows(links[t], ids, sm, em, spec_thr, emb_thr));
        let (i, j) = choose|i: int, j: int|
            0 <= i < j < ids.len() && links[t] == (ids[i], ids[j], sm[i][j]) && #[trigger] is_long_range(sm, em, spec_thr, emb_thr, i, j);
        assert(ids[i] == links[t].0 && ids[j] == links[t].1 && em[i][j] < emb_thr);
    }
}

/// The long-range links of notes `ids` (rows of the two score-key matrices):
/// every pair of rows `i < j` whose spectral key is above `spec_thr` and whose
/// embedding key is below `emb_thr`, as `(ids[i], ids[j], spectral key)`,
/// listed by descending key, then ascending ids.
pub fn detect_long_range_links(ids: &Vec<u32>, spectral: &Vec<Vec<u32>>, embedding: &Vec<Vec<u32>>, spec_thr: u32, emb_thr: u32) -> (r: Vec<(u32, u32, u32)>)
    requires
        is_square(matrix_view(spectral@), ids.len() as nat),
        is_square(matrix_view(embedding@), ids.len() as nat),
    ensures
        ({
            let cands = pairs_upto(ids@, matrix_view(spectral@), matrix_view(embedding@), spec_thr, emb_thr, ids.len() as int);
            exists|order: Seq<usize>| #[trigger] is_top_ranking(link_keys(cands), order, cands.len())
                && r@.len() == order.len() && forall|t: int| 0 <= t < r.len() ==> r@[t] == cands[#[trigger] order[t] as int]
        }),
        all_from_long_range_rows(r@, ids@, matrix_view(spectral@), matrix_view(embedding@), spec_thr, emb_thr),
{
    let ghost sm = matrix_view(spectral@);
    let ghost em = matrix_view(embedding@);
    let n = ids.len();
    let mut cands: Vec<(u32, u32, u32)> = Vec::new();
    let mut i: usize = 0;
    while i < n
        invariant
            i <= n == ids.len(),
            sm == matrix_view(spectral@),
            em == matrix_view(embedding@),
            is_square(sm, n as nat),
            is_square(em, n as nat),
            cands@ == pairs_upto(ids@, sm, em, spec_thr, emb_thr, i as int),
        decreases n - i,
    {
        let ghost before = cands@;
        let mut j: usize = i + 1;
        assert(row_pairs(ids@, sm, em, spec_thr, emb_thr, i as int, j as int) =~= Seq::<(u32, u32, u32)>::empty());
        assert(before + Seq::<(u32, u32, u32)>::empty() =~= before);
        while j < n
            invariant
                i < j <= n == ids.len(),
                i < n,
                sm == matrix_view(spectral@),
                em == matrix_view(embedding@),
                is_square(sm, n as nat),
                is_square(em, n as nat),
                before == pairs_upto(ids@, sm, em, spec_thr, emb_thr, i as int),
                cands@ == before + row_pairs(ids@, sm, em, spec_thr, emb_thr, i as int, j as int),
            decreases n - j,
        {
            assert(sm[i as int].len() == n && em[i as int].len() == n);
            assert(spectral@[i as int]@ == sm[i as int]);
            assert(embedding@[i as int]@ == em[i as int]);
            let s = spectral[i][j];
            let w = embedding[i][j];
            if s > spec_thr && w < emb_thr {
                let ghost old_c = cands@;
                cands.push((ids[i], ids[j], s));
                assert(cands@ =~= before + row_pairs(ids@, sm, em, spec_thr, emb_thr, i as int, j + 1));
            } else {
                assert(row_pairs(ids@, sm, em, spec_thr, emb_thr, i as int, j + 1) == row_pairs(ids@, sm, em, spec_thr, emb_thr, i as int, j as int));
            }
            j = j + 1;
        }
        assert(pairs_upto(ids@, sm, em, spec_thr, emb_thr, i + 1) == before + row_pairs(ids@, sm, em, spec_thr, emb_thr, i as int, n as int));
        i = i + 1;
    }
    let ghost cv = cands@;
    proof {
        lemma_pairs_upto(ids@, sm, em, spec_thr, emb_thr, n as int);
    }
    let order = long_range_order(&cands, None);
    let mut r: Vec<(u32, u32, u32)> = Vec::new();
    let mut t: usize = 0;
    while t < order.len()
        invariant
            t <= order.len(),
            cv == cands@,
            is_top_ranking(link_keys(cv), order@, cv.len()),
            r.len() == t,
            forall|u: int| 0 <= u < t ==> r@[u] == cv[#[trigger] order@[u] as int],
        decreases order.len() - t,
    {
        r.push(cands[order[t]]);
        t = t + 1;
    }
    proof {
        assert forall|u: int| 0 <= u < r.len() implies from_long_range_rows(#[trigger] r@[u], ids@, sm, em, spec_thr, emb_thr) by {
            assert(r@[u] == cv[order@[u] as int]);
            assert(order@[u] < cv.len());
            assert(from_long_range_rows(cv[order@[u] as int], ids@, sm, em, spec_thr, emb_thr));
        }
    }
    r
}

} // verus!
