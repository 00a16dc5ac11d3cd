//! The discrete decisions of the spectral build: whether a graph is large
//! enough, how many spectral dimensions and clusters to use, which rows form
//! each cluster, the id that the next note gets, and which turn-level
//! candidates a note contributes.
use vstd::prelude::*;

verus! {

/// Eigenpairs asked of the eigensolver.
pub const SPECTRAL_DIMS: usize = 8;

/// Fewest clusters.
pub const MIN_CLUSTERS: usize = 2;

/// Most clusters.
pub const MAX_CLUSTERS: usize = 12;

/// Fewest notes for a spectral build.
pub const MIN_SPECTRAL_NOTES: usize = 3;

/// Whether a graph of `n` notes gets a spectral build; smaller graphs keep every
/// spectral field empty.
pub fn spectral_applies(n: usize) -> (r: bool)
    ensures
        r == (n >= MIN_SPECTRAL_NOTES),
{
    n >= MIN_SPECTRAL_NOTES
}

/// Number of spectral coordinates kept per note: `min(8, n - 1)`.
pub fn spectral_dims(n: usize) -> (r: usize)
    requires
        n >= 1,
    ensures
        r == if SPECTRAL_DIMS <= n - 1 { SPECTRAL_DIMS as int } else { n - 1 },
{
    if SPECTRAL_DIMS <= n - 1 {
        SPECTRAL_DIMS
    } else {
        n - 1
    }
}

/// Number of clusters for `n` notes when the largest eigengap is at
/// `gap_index`: that index raised to at least 2, clamped into `[2, 12]`, and at
/// most `max(2, n)`.
pub open spec fn cluster_count_spec(gap_index: usize, n: usize) -> usize {
    let k = if gap_index < MIN_CLUSTERS {
        MIN_CLUSTERS
    } else if gap_index > MAX_CLUSTERS {
        MAX_CLUSTERS
    } else {
        gap_index
    };
    let cap = if n < MIN_CLUSTERS {
        MIN_CLUSTERS
    } else {
        n
    };
    if k <= cap {
        k
    } else {
        cap
    }
}

/// The cluster count for `n` notes and the index of the largest eigengap.
pub fn cluster_count(gap_index: usize, n: usize) -> (r: usize)
    ensures
        r == cluster_count_spec(gap_index, n),
        MIN_CLUSTERS <= r <= MAX_CLUSTERS,
{
    let k = if gap_index < MIN_CLUSTERS {
        MIN_CLUSTERS
    } else if gap_index > MAX_CLUSTERS {
        MAX_CLUSTERS
    } else {
        gap_index
    };
    let cap = if n < MIN_CLUSTERS { MIN_CLUSTERS } else { n };
    if k <= cap {
        k
    } else {
        cap
    }
}

/// The rows of `labels` that carry label `c`, ascending.
pub open spec fn members_of(labels: Seq<usize>, c: usize) -> Seq<usize>
    decreases labels.len(),
{
    if labels.len() == 0 {
        Seq::empty()
    } else {
        let m = members_of(labels.drop_last(), c);
        if labels.last() == c {
            m.push((labels.len() - 1) as usize)
        } else {
            m
        }
    }
}

/// `labels` holds label `c`.
pub open spec fn has_label(labels: Seq<usize>, c: usize) -> bool {
    exists|i: int| 0 <= i < labels.len() && labels[i] == c
}

proof fn lemma_members_nonempty(labels: Seq<usize>, c: usize)
    ensures
        members_of(labels, c).len() > 0 <==> has_label(labels, c),
    decreases labels.len(),
{
    if labels.len() > 0 {
        let prev = labels.drop_last();
        lemma_members_nonempty(prev, c);
        if has_label(prev, c) {
            let i = choose|i: int| 0 <= i < prev.len() && prev[i] == c;
            assert(labels[i] == c);
        }
        if has_label(labels, c) && labels.last() != c {
            let i = choose|i: int| 0 <= i < labels.len() && labels[i] == c;
            assert(prev[i] == c);
        }
    }
}

/// Some cluster of `r` has key `c`.
pub open spec fn has_cluster(r: Seq<(usize, Vec<usize>)>, c: usize) -> bool {
    exists|t: int| 0 <= t < r.len() && r[t].0 == c
}

/// The clusters of a labelling: for each label that occurs, in ascending
/// order, the label and its rows. Each cluster is non-empty, so every cluster
/// key is some row's label, and every label is a key.
pub fn cluster_members(labels: &Vec<usize>) -> (r: Vec<(usize, Vec<usize>)>)
    ensures
        forall|t: int| 0 <= t < r.len() ==> #[trigger] r@[t].1@ == members_of(labels@, r@[t].0),
        forall|t: int| 0 <= t < r.len() ==> has_label(labels@, #[trigger] r@[t].0),
        forall|s: int, t: int| 0 <= s < t < r.len() ==> r@[s].0 < r@[t].0,
        forall|i: int| 0 <= i < labels.len() ==> has_cluster(r@, #[trigger] labels@[i]),
{
    let mut r: Vec<(usize, Vec<usize>)> = Vec::new();
    let mut top: usize = 0;
    let mut i: usize = 0;
    while i < labels.len()
        invariant
            i <= labels.len(),
            forall|j: int| 0 <= j < i ==> labels@[j] <= top,
        decreases labels.len() - i,
    {
        if labels[i] > top {
            top = labels[i];
        }
        i = i + 1;
    }
    let mut c: usize = 0;
    let mut done = labels.len() == 0;
    while !done
        invariant
            forall|j: int| 0 <= j < labels.len() ==> labels@[j] <= top,
            c <= top,
            done ==> c == top || labels.len() == 0,
            forall|t: int| 0 <= t < r.len() ==> #[trigger] r@[t].1@ == members_of(labels@, r@[t].0),
            forall|t: int| 0 <= t < r.len() ==> has_label(labels@, #[trigger] r@[t].0),
            forall|t: int| 0 <= t < r.len() ==> (#[trigger] r@[t].0 < c || (done && r@[t].0 <= c)),
            forall|s: int, t: int| 0 <= s < t < r.len() ==> r@[s].0 < r@[t].0,
            forall|j: int| 0 <= j < labels.len() && (labels@[j] < c || (done && labels@[j] <= c)) ==> has_cluster(r@, #[trigger] labels@[j]),
        decreases top - c + if done { 0int } else { 1int },
    {
        let mut m: Vec<usize> = Vec::new();
        let mut j: usize = 0;
        assert(labels@.subrange(0, 0) =~= Seq::<usize>::empty());
        while j < labels.len()
            invariant
                j <= labels.len(),
                m@ == members_of(labels@.subrange(0, j as int), c),
            decreases labels.len() - j,
        {
            assert(labels@.subrange(0, j + 1).drop_last() =~= labels@.subrange(0, j as int));
            if labels[j] == c {
                m.push(j);
            }
            j = j + 1;
        }
        assert(labels@.subrange(0, labels.len() as int) =~= labels@);
        proof {
            lemma_members_nonempty(labels@, c);
        }
        let ghost old_r = r@;
        if m.len() > 0 {
            r.push((c, m));
            proof {
                assert forall|t: int| 0 <= t < r.len() implies has_label(labels@, #[trigger] r@[t].0) by {
                    if t < old_r.len() {
                        assert(r@[t] == old_r[t]);
                    }
                }
            }
        }
        proof {
            assert forall|jj: int| 0 <= jj < labels.len() && labels@[jj] == c implies has_cluster(r@, #[trigger] labels@[jj]) by {
                assert(has_label(labels@, c));
                assert(r@[r.len() - 1].0 == c);
            }
            assert forall|jj: int| 0 <= jj < labels.len() && labels@[jj] < c implies has_cluster(r@, #[trigger] labels@[jj]) by {
                assert(has_cluster(old_r, labels@[jj]));
                let t = choose|t: int| 0 <= t < old_r.len() && old_r[t].0 == labels@[jj];
                assert(r@[t] == old_r[t]);
            }
        }
        if c == top {
            done = true;
        } else {
            c = c + 1;
        }
    }
    r
}

/// The id for the next note: one past the largest id in use, or zero when none
/// is; `None` when the largest id is the last one a `u32` holds.
pub fn next_note_id(ids: &Vec<u32>) -> (r: Option<u32>)
    ensures
        ids.len() == 0 ==> r == Some(0u32),
        ids.len() > 0 ==> (r matches Some(n) ==> (forall|i: int| 0 <= i < ids.len() ==> ids@[i] < n)
            && exists|i: int| 0 <= i < ids.len() && ids@[i] + 1 == n),
        r is None <==> exists|i: int| 0 <= i < ids.len() && ids@[i] == u32::MAX,
{
    if ids.len() == 0 {
        return Some(0);
    }
    let mut top: u32 = ids[0];
    let mut i: usize = 1;
    while i < ids.len()
        invariant
            1 <= i <= ids.len(),
            forall|j: int| 0 <= j < i ==> ids@[j] <= top,
            exists|j: int| 0 <= j < i && ids@[j] == top,
        decreases ids.len() - i,
    {
        if ids[i] > top {
            top = ids[i];
        }
        i = i + 1;
    }
    if top == u32::MAX {
        None
    } else {
        Some(top + 1)
    }
}

/// The turn-level candidates of one note: one per source turn, in order, with
/// the timestamp at the same position when there is one.
pub fn expand_candidates(turn_ids: &Vec<u64>, timestamps: &Vec<u64>) -> (r: Vec<(u64, Option<u64>)>)
    ensures
        r.len() == turn_ids.len(),
        forall|i: int| 0 <= i < r.len() ==> #[trigger] r@[i] == (turn_ids@[i], if i < timestamps.len() { Some(timestamps@[i]) } else { None }),
{
    let mut r: Vec<(u64, Option<u64>)> = Vec::new();
    let mut i: usize = 0;
    while i < turn_ids.len()
        invariant
            i <= turn_ids.len(),
            r.len() == i,
            forall|j: int| 0 <= j < i ==> #[trigger] r@[j] == (turn_ids@[j], if j < timestamps.len() { Some(timestamps@[j]) } else { None }),
        decreases turn_ids.len() - i,
    {
        let ts = if i < timestamps.len() { Some(timestamps[i]) } else { None };
        r.push((turn_ids[i], ts));
        i = i + 1;
    }
    r
}

/// Adds `id` to a list of related ids unless it is there already.
pub fn add_related(list: &mut Vec<u32>, id: u32)
    ensures
        old(list)@.contains(id) ==> final(list)@ == old(list)@,
        !old(list)@.contains(id) ==> final(list)@ == old(list)@.push(id),
{
    let mut i: usize = 0;
    while i < list.len()
        invariant
            i <= list.len(),
            forall|j: int| 0 <= j < i ==> list@[j] != id,
        decreases list.len() - i,
    {
        if list[i] == id {
            assert(list@.contains(id)) by {
                assert(list@[i as int] == id);
            }
            return;
        }
        i = i + 1;
    }
    list.push(id);
}

/// The eigengap choice: with `gaps[t]` the key of `λ[t+1] - λ[t]`, the index
/// `t + 1` of the first largest gap above `zero` (the key of a zero gap), or 1
/// when no gap is above it.
pub open spec fn is_largest_gap_index(gaps: Seq<u32>, zero: u32, r: int) -> bool {
    if forall|t: int| 0 <= t < gaps.len() ==> #[trigger] gaps[t] <= zero {
        r == 1
    } else {
        1 <= r <= gaps.len() && gaps[r - 1] > zero && (forall|t: int| 0 <= t < r - 1 ==> #[trigger] gaps[t] < gaps[r - 1])
            && forall|t: int| r - 1 <= t < gaps.len() ==> #[trigger] gaps[t] <= gaps[r - 1]
    }
}

/// Index of the largest eigengap, given the gaps' order keys.
pub fn largest_gap_index(gaps: &Vec<u32>, zero: u32) -> (r: usize)
    ensures
        is_largest_gap_index(gaps@, zero, r as int),
{
    let mut best: usize = 1;
    let mut best_key: u32 = zero;
    let mut t: usize = 0;
    while t < gaps.len()
        invariant
            t <= gaps.len(),
            best_key >= zero,
            best_key == zero ==> best == 1 && forall|u: int| 0 <= u < t ==> #[trigger] gaps@[u] <= zero,
            best_key > zero ==> 1 <= best <= t && gaps@[best - 1] == best_key
                && (forall|u: int| 0 <= u < best - 1 ==> #[trigger] gaps@[u] < best_key)
                && forall|u: int| 0 <= u < t ==> #[trigger] gaps@[u] <= best_key,
        decreases gaps.len() - t,
    {
        if gaps[t] > best_key {
            best_key = gaps[t];
            best = t + 1;
        }
        t = t + 1;
    }
    proof {
        if best_key > zero {
            assert(!(forall|u: int| 0 <= u < gaps@.len() ==> #[trigger] gaps@[u] <= zero)) by {
                assert(gaps@[best - 1] > zero);
            }
        }
    }
    best
}

} // verus!
