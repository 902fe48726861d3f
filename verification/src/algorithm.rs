//! The K-Modes algorithm: dissimilarity, nearest modes, the clustering loop and the fitted model.

use vstd::prelude::*;

use rand_xoshiro::Xoshiro256Plus;

use crate::element::EquivalenceTarget;
use crate::errors::{cluster_count_message, cluster_count_text, parameters_error, parameters_error_of, KModesError};
use crate::freq::FrequencyTable;
use crate::hyperparams::{KModesParams, KModesValidParams};
use crate::init::KModesInit;
use crate::matrix::Matrix;
use crate::rng::{seeded_generator, RandomSource};
use crate::run::{
    copies_observation, copies_some_observation, count_in_cluster, is_largest, is_run, loses, moved_points,
    moves_point, point_step, receives, refreshes, run_chain, starts_from, sweep_chain, sweeps_from, RunState,
};
use crate::model::{
    assignment_cost, category_count, cluster_size, dissimilarity, is_clustering, is_mode, is_nearest,
    lemma_assignment_cost_bound, lemma_assignment_cost_monotone, lemma_category_count_bound,
    lemma_clustering_cost_bound, lemma_count_witness, lemma_counts_frame, lemma_counts_update,
    lemma_dissimilarity_bound, lemma_empty_cluster_counts, lemma_member_counted, lemma_non_member_bound,
    lemma_size_witness, mismatches, modes_observed, observed_in_column, total_cost, has_width,
};

verus! {

/// Simple matching dissimilarity: the number of positions (over the common
/// length) at which the two vectors hold different categories.
pub fn matching_dissim<T: EquivalenceTarget>(a: &[T], b: &[T]) -> (r: usize)
    ensures
        r == dissimilarity(a@, b@),
{
    let n = if a.len() <= b.len() { a.len() } else { b.len() };
    let mut count: usize = 0;
    for j in 0..n
        invariant
            n == (if a@.len() <= b@.len() { a@.len() } else { b@.len() }),
            count == mismatches(a@, b@, j as int),
            count <= j,
    {
        if !a[j].equivalent(&b[j]) {
            count = count + 1;
        }
    }
    count
}

/// Index of the first centroid nearest to `observation`, and its dissimilarity
/// (`(0, usize::MAX)` when there is no centroid).
pub fn closest_centroid<T: EquivalenceTarget>(centroids: &Matrix<T>, observation: &[T]) -> (r: (
    usize,
    usize,
))
    ensures
        is_nearest(centroids@, observation@, r.0 as int),
        r.1 == if centroids@.len() > 0 {
            dissimilarity(centroids@[r.0 as int], observation@)
        } else {
            usize::MAX as nat
        },
{
    let k = centroids.nrows();
    let mut min_dist: usize = usize::MAX;
    let mut closest_idx: usize = 0;
    for idx in 0..k
        invariant
            k == centroids@.len(),
            closest_idx < k || (closest_idx == 0 && idx == 0),
            min_dist == usize::MAX ==> closest_idx == 0,
            min_dist < usize::MAX ==> closest_idx < idx && min_dist == dissimilarity(
                centroids@[closest_idx as int],
                observation@,
            ),
            forall|c: int| 0 <= c < idx ==> min_dist <= #[trigger] dissimilarity(centroids@[c], observation@),
            forall|c: int|
                0 <= c < closest_idx ==> min_dist < #[trigger] dissimilarity(centroids@[c], observation@),
            min_dist == usize::MAX ==> forall|c: int|
                0 <= c < idx ==> #[trigger] dissimilarity(centroids@[c], observation@) == usize::MAX,
    {
        let dist = matching_dissim(centroids.row(idx), observation);
        proof { lemma_dissimilarity_bound(centroids@[idx as int], observation@); }
        if dist < min_dist {
            min_dist = dist;
            closest_idx = idx;
        }
    }
    proof {
        if k > 0 {
            if min_dist == usize::MAX {
                assert(dissimilarity(centroids@[0], observation@) == usize::MAX);
            }
        }
    }
    (closest_idx, min_dist)
}

/// Total dissimilarity of the observations to the centroids of the clusters they are assigned to.
pub fn calculate_cost<T: EquivalenceTarget>(
    observations: &Matrix<T>,
    centroids: &Matrix<T>,
    memberships: &[usize],
) -> (r: usize)
    requires
        forall|i: int|
            0 <= i < observations@.len() && 0 <= i < memberships@.len() ==> #[trigger] memberships@[i]
                < centroids@.len(),
        total_cost(observations@, centroids@, memberships@) <= usize::MAX,
    ensures
        r == total_cost(observations@, centroids@, memberships@),
{
    let n = if observations.nrows() <= memberships.len() {
        observations.nrows()
    } else {
        memberships.len()
    };
    let mut cost: usize = 0;
    for i in 0..n
        invariant
            n == (if observations@.len() <= memberships@.len() {
                observations@.len()
            } else {
                memberships@.len()
            }),
            forall|a: int|
                0 <= a < observations@.len() && 0 <= a < memberships@.len() ==> #[trigger] memberships@[a]
                    < centroids@.len(),
            total_cost(observations@, centroids@, memberships@) <= usize::MAX,
            cost == assignment_cost(observations@, centroids@, memberships@, i as int),
    {
        let d = matching_dissim(observations.row(i), centroids.row(memberships[i]));
        proof { lemma_assignment_cost_monotone(observations@, centroids@, memberships@, i + 1, n as int); }
        cost = cost + d;
    }
    cost
}

/// The frequency tables are `k` rows of `m` well-formed tables.
spec fn tables_shaped<T: View>(freq: Seq<Vec<FrequencyTable<T>>>, k: int, m: int) -> bool {
    &&& freq.len() == k
    &&& forall|a: int| 0 <= a < k ==> #[trigger] freq[a]@.len() == m
    &&& forall|a: int, b: int| 0 <= a < k && 0 <= b < m ==> #[trigger] freq[a]@[b].wf()
}

/// Every centroid value is a most frequent category in its table.
spec fn centroids_lead<T: View>(freq: Seq<Vec<FrequencyTable<T>>>, centroids: Seq<Seq<T>>) -> bool {
    forall|a: int, b: int, v: T::V|
        0 <= a < freq.len() && 0 <= b < freq[a]@.len() ==> #[trigger] freq[a]@[b].count(v)
            <= freq[a]@[b].count(centroids[a][b]@)
}

/// The change of counts when one observation with values `point` moves from
/// cluster `from` to cluster `to`, for attributes below `upto`.
spec fn moved_count<T: View>(
    old_freq: Seq<Vec<FrequencyTable<T>>>,
    point: Seq<T>,
    to: int,
    from: int,
    upto: int,
    k: int,
    j: int,
    v: T::V,
) -> int {
    old_freq[k]@[j].count(v) + (if j < upto && k == to && v == point[j]@ {
        1int
    } else {
        0int
    }) - (if j < upto && k == from && v == point[j]@ {
        1int
    } else {
        0int
    })
}

/// In row `a`, every centroid value is a most frequent category of its table.
spec fn leads_row<T: View>(freq: Seq<Vec<FrequencyTable<T>>>, centroids: Seq<Seq<T>>, a: int) -> bool {
    forall|b: int, v: T::V|
        0 <= b < freq[a]@.len() ==> #[trigger] freq[a]@[b].count(v) <= freq[a]@[b].count(centroids[a][b]@)
}

/// The rule for the cluster that receives a value `p`: its centroid value
/// `old_c` becomes `p` only when `p` is now strictly more frequent than `old_c`
/// in the updated table `table`.
spec fn receiving_rule<T: View>(table: FrequencyTable<T>, p: T::V, old_c: T, new_c: T) -> bool {
    if table.count(p) > table.count(old_c@) {
        new_c@ == p
    } else {
        new_c == old_c
    }
}

/// The rule for the cluster that loses a value `p`: when its centroid value was
/// `p` and some category is now strictly more frequent than `p` in the updated
/// table `table`, the centroid value becomes a most frequent category;
/// otherwise it stays (so a table left with only zero counts keeps its value).
spec fn losing_rule<T: View>(table: FrequencyTable<T>, p: T::V, old_c: T, new_c: T) -> bool {
    if old_c@ == p && exists|v: T::V| #[trigger] table.count(v) > table.count(p) {
        &&& table.count(new_c@) > 0
        &&& forall|v: T::V| #[trigger] table.count(v) <= table.count(new_c@)
    } else {
        new_c == old_c
    }
}

/// Moves one observation with values `point` from cluster `from_clust` to
/// cluster `to_clust`: updates the category counts of both clusters, attribute
/// by attribute, and the centroid values of both by the receiving and the
/// losing rule. The centroids of the other clusters stay as they are, and the
/// centroid values of both clusters stay most frequent categories.
fn move_point_cat<T: EquivalenceTarget>(
    point: &[T],
    to_clust: usize,
    from_clust: usize,
    cl_attr_freq: &mut Vec<Vec<FrequencyTable<T>>>,
    centroids: &mut Matrix<T>,
)
    requires
        to_clust != from_clust,
        to_clust < old(centroids)@.len(),
        from_clust < old(centroids)@.len(),
        point@.len() == old(centroids).width(),
        tables_shaped(old(cl_attr_freq)@, old(centroids)@.len() as int, old(centroids).width() as int),
        leads_row(old(cl_attr_freq)@, old(centroids)@, to_clust as int),
        leads_row(old(cl_attr_freq)@, old(centroids)@, from_clust as int),
        forall|j: int|
            0 <= j < point@.len() ==> #[trigger] old(cl_attr_freq)@[to_clust as int]@[j].count(point@[j]@)
                < usize::MAX,
        forall|j: int|
            0 <= j < point@.len() ==> #[trigger] old(cl_attr_freq)@[from_clust as int]@[j].count(point@[j]@)
                > 0,
    ensures
        final(centroids)@.len() == old(centroids)@.len(),
        final(centroids).width() == old(centroids).width(),
        tables_shaped(final(cl_attr_freq)@, old(centroids)@.len() as int, old(centroids).width() as int),
        forall|k: int, j: int, v: T::V|
            0 <= k < old(centroids)@.len() && 0 <= j < old(centroids).width() ==> #[trigger] final(cl_attr_freq)@[k]@[j].count(v)
                == moved_count(old(cl_attr_freq)@, point@, to_clust as int, from_clust as int, point@.len() as int, k, j, v),
        forall|k: int|
            0 <= k < old(centroids)@.len() && k != to_clust && k != from_clust ==> #[trigger] final(centroids)@[k]
                == old(centroids)@[k],
        forall|j: int|
            0 <= j < point@.len() ==> receiving_rule(
                final(cl_attr_freq)@[to_clust as int]@[j],
                point@[j]@,
                old(centroids)@[to_clust as int][j],
                #[trigger] final(centroids)@[to_clust as int][j],
            ),
        forall|j: int|
            0 <= j < point@.len() ==> losing_rule(
                final(cl_attr_freq)@[from_clust as int]@[j],
                point@[j]@,
                old(centroids)@[from_clust as int][j],
                #[trigger] final(centroids)@[from_clust as int][j],
            ),
        leads_row(final(cl_attr_freq)@, final(centroids)@, to_clust as int),
        leads_row(final(cl_attr_freq)@, final(centroids)@, from_clust as int),
{
    let ghost kk = centroids@.len() as int;
    let ghost mm = centroids.width() as int;
    let ghost old_freq = cl_attr_freq@;
    let ghost old_c = centroids@;
    let ghost t = to_clust as int;
    let ghost f = from_clust as int;
    centroids.assert_wf();
    let n = point.len();
    for iattr in 0..n
        invariant
            n == point@.len(),
            n == mm,
            kk == old(centroids)@.len(),
            mm == old(centroids).width(),
            old_freq == old(cl_attr_freq)@,
            old_c == old(centroids)@,
            t == to_clust,
            f == from_clust,
            to_clust != from_clust,
            to_clust < kk,
            from_clust < kk,
            centroids@.len() == kk,
            centroids.width() == mm,
            centroids.wf(),
            tables_shaped(cl_attr_freq@, kk, mm),
            leads_row(cl_attr_freq@, centroids@, t),
            leads_row(cl_attr_freq@, centroids@, f),
            forall|j: int|
                0 <= j < n ==> #[trigger] old_freq[t]@[j].count(point@[j]@) < usize::MAX,
            forall|j: int| 0 <= j < n ==> #[trigger] old_freq[f]@[j].count(point@[j]@) > 0,
            forall|k: int, j: int, v: T::V|
                0 <= k < kk && 0 <= j < mm ==> #[trigger] cl_attr_freq@[k]@[j].count(v) == moved_count(
                    old_freq,
                    point@,
                    t,
                    f,
                    iattr as int,
                    k,
                    j,
                    v,
                ),
            forall|k: int| 0 <= k < kk && k != t && k != f ==> #[trigger] centroids@[k] == old_c[k],
            forall|j: int| iattr <= j < mm ==> #[trigger] centroids@[t][j] == old_c[t][j],
            forall|j: int| iattr <= j < mm ==> #[trigger] centroids@[f][j] == old_c[f][j],
            forall|j: int|
                0 <= j < iattr ==> receiving_rule(cl_attr_freq@[t]@[j], point@[j]@, old_c[t][j], #[trigger] centroids@[t][j]),
            forall|j: int|
                0 <= j < iattr ==> losing_rule(cl_attr_freq@[f]@[j], point@[j]@, old_c[f][j], #[trigger] centroids@[f][j]),
    {
        let curattr = &point[iattr];
        let ghost j0 = iattr as int;
        let ghost before = cl_attr_freq@;
        let ghost cbefore = centroids@;
        assert(before[t]@[j0].count(curattr@) == old_freq[t]@[j0].count(curattr@));
        assert(cbefore[t][j0] == old_c[t][j0]);
        assert(cbefore[f][j0] == old_c[f][j0]);
        // Count the value in the destination cluster.
        cl_attr_freq[to_clust][iattr].increment(curattr);
        let new_val_freq = cl_attr_freq[to_clust][iattr].count_of(curattr);
        let current_centroid_freq = cl_attr_freq[to_clust][iattr].count_of(centroids.get(to_clust, iattr));
        if new_val_freq > current_centroid_freq {
            centroids.set(to_clust, iattr, curattr.duplicate());
        }
        centroids.assert_wf();
        let ghost mid = cl_attr_freq@;
        let ghost cmid = centroids@;
        proof {
            assert(forall|a: int, b: int| 0 <= a < kk && 0 <= b < mm && !(a == t && b == j0) ==> #[trigger] mid[a]@[b] == before[a]@[b]);
            assert forall|k: int| 0 <= k < kk && k != t implies #[trigger] cmid[k] == cbefore[k] by {}
            assert forall|j: int| 0 <= j < mm && j != j0 implies #[trigger] cmid[t][j] == cbefore[t][j] by {}
            assert(receiving_rule(mid[t]@[j0], curattr@, old_c[t][j0], cmid[t][j0]));
            assert forall|b: int, v: T::V| 0 <= b < mm implies #[trigger] mid[t]@[b].count(v)
                <= mid[t]@[b].count(cmid[t][b]@) by {
                if b == j0 {
                    let oc = cbefore[t][b]@;
                    assert(before[t]@[b].count(v) <= before[t]@[b].count(oc));
                    assert(before[t]@[b].count(curattr@) <= before[t]@[b].count(oc));
                    assert(new_val_freq == before[t]@[b].count(curattr@) + 1);
                    assert(current_centroid_freq == mid[t]@[b].count(oc));
                } else {
                    assert(mid[t]@[b] == before[t]@[b]);
                    assert(cmid[t][b] == cbefore[t][b]);
                    assert(before[t]@[b].count(v) <= before[t]@[b].count(cbefore[t][b]@));
                }
            }
            assert(leads_row(mid, cmid, t));
            assert forall|b: int, v: T::V| 0 <= b < mm implies #[trigger] mid[f]@[b].count(v)
                <= mid[f]@[b].count(cmid[f][b]@) by {
                assert(mid[f]@[b] == before[f]@[b]);
                assert(cmid[f][b] == cbefore[f][b]);
                assert(before[f]@[b].count(v) <= before[f]@[b].count(cbefore[f][b]@));
            }
            assert(leads_row(mid, cmid, f));
        }
        // Remove the value from the source cluster.
        cl_attr_freq[from_clust][iattr].decrement(curattr);
        if centroids.get(from_clust, iattr).equivalent(curattr) {
            let remaining_count = cl_attr_freq[from_clust][iattr].count_of(curattr);
            if let Some((best_val, max_count)) = cl_attr_freq[from_clust][iattr].most_frequent() {
                if max_count > remaining_count {
                    let b = best_val.duplicate();
                    centroids.set(from_clust, iattr, b);
                }
            }
        }
        centroids.assert_wf();
        proof {
            let fin = cl_attr_freq@;
            let cfin = centroids@;
            assert(forall|a: int, b: int| 0 <= a < kk && 0 <= b < mm && !(a == f && b == j0) ==> #[trigger] fin[a]@[b] == mid[a]@[b]);
            assert forall|k: int| 0 <= k < kk && k != f implies #[trigger] cfin[k] == cmid[k] by {}
            assert forall|j: int| 0 <= j < mm && j != j0 implies #[trigger] cfin[f][j] == cmid[f][j] by {}
            let tab = fin[f]@[j0];
            let p = curattr@;
            if cmid[f][j0]@ == p {
                if exists|v: T::V| #[trigger] tab.count(v) > tab.count(p) {
                    let w = choose|v: T::V| #[trigger] tab.count(v) > tab.count(p);
                    assert(tab.count(w) > tab.count(p));
                }
            }
            assert(losing_rule(tab, p, old_c[f][j0], cfin[f][j0]));
            assert forall|b: int, v: T::V| 0 <= b < mm implies #[trigger] fin[f]@[b].count(v)
                <= fin[f]@[b].count(cfin[f][b]@) by {
                if b == j0 {
                    let oc = cmid[f][b]@;
                    assert(mid[f]@[b].count(v) <= mid[f]@[b].count(oc));
                    assert(fin[f]@[b].count(v) == if v == p && mid[f]@[b].count(v) > 0 {
                        (mid[f]@[b].count(v) - 1) as nat
                    } else {
                        mid[f]@[b].count(v)
                    });
                    assert(fin[f]@[b].count(oc) == if oc == p && mid[f]@[b].count(oc) > 0 {
                        (mid[f]@[b].count(oc) - 1) as nat
                    } else {
                        mid[f]@[b].count(oc)
                    });
                } else {
                    assert(fin[f]@[b] == mid[f]@[b]);
                    assert(cfin[f][b] == cmid[f][b]);
                    assert(mid[f]@[b].count(v) <= mid[f]@[b].count(cmid[f][b]@));
                }
            }
            assert forall|b: int, v: T::V| 0 <= b < mm implies #[trigger] fin[t]@[b].count(v)
                <= fin[t]@[b].count(cfin[t][b]@) by {
                assert(fin[t]@[b] == mid[t]@[b]);
                assert(cfin[t][b] == cmid[t][b]);
                assert(mid[t]@[b].count(v) <= mid[t]@[b].count(cmid[t][b]@));
            }
            assert forall|k: int, j: int, v: T::V|
                0 <= k < kk && 0 <= j < mm implies #[trigger] fin[k]@[j].count(v) == moved_count(
                    old_freq,
                    point@,
                    t,
                    f,
                    iattr + 1,
                    k,
                    j,
                    v,
                ) by {
                assert(before[k]@[j].count(v) == moved_count(old_freq, point@, t, f, iattr as int, k, j, v));
                if !((k == t || k == f) && j == j0) {
                    assert(fin[k]@[j] == before[k]@[j]);
                }
            }
            assert forall|j: int| 0 <= j < iattr + 1 implies receiving_rule(fin[t]@[j], point@[j]@, old_c[t][j], #[trigger] cfin[t][j]) by {
                assert(fin[t]@[j] == mid[t]@[j]);
                assert(cfin[t][j] == cmid[t][j]);
                if j < j0 {
                    assert(mid[t]@[j] == before[t]@[j]);
                    assert(cmid[t][j] == cbefore[t][j]);
                }
            }
            assert forall|j: int| 0 <= j < iattr + 1 implies losing_rule(fin[f]@[j], point@[j]@, old_c[f][j], #[trigger] cfin[f][j]) by {
                if j < j0 {
                    assert(fin[f]@[j] == before[f]@[j]);
                    assert(cfin[f][j] == cbefore[f][j]);
                }
            }
        }
    }
}

/// The bookkeeping of a clustering in progress over the first `n` observations:
/// memberships name one of `k` clusters, `counts` holds the cluster sizes and
/// `freq` the per-cluster category counts of each of the `m` attributes.
spec fn tracks<T: View>(
    x: Seq<Seq<T>>,
    memb: Seq<usize>,
    n: int,
    k: int,
    m: int,
    counts: Seq<usize>,
    freq: Seq<Vec<FrequencyTable<T>>>,
) -> bool {
    &&& n <= memb.len()
    &&& forall|i: int| 0 <= i < n ==> #[trigger] memb[i] < k
    &&& counts.len() == k
    &&& forall|a: int| 0 <= a < k ==> #[trigger] counts[a] == cluster_size(memb, a, n)
    &&& tables_shaped(freq, k, m)
    &&& forall|a: int, b: int, v: T::V|
        0 <= a < k && 0 <= b < m ==> #[trigger] freq[a]@[b].count(v) == category_count(x, memb, a, b, v, n)
}

/// The rules of `move_point_cat`, stated over the frequency tables, as rules
/// over the category counts that the tables track.
proof fn lemma_moves_point_from_tables<T: View>(
    x: Seq<Seq<T>>,
    memb: Seq<usize>,
    c: Seq<Seq<T>>,
    c2: Seq<Seq<T>>,
    freq: Seq<Vec<FrequencyTable<T>>>,
    p: int,
    to: int,
    from: int,
    m: int,
)
    requires
        0 <= p < x.len(),
        x[p].len() == m,
        0 <= to < c.len(),
        0 <= from < c.len(),
        to != from,
        c2.len() == c.len(),
        has_width(c, m),
        has_width(c2, m),
        forall|a: int, b: int, v: T::V|
            0 <= a < c.len() && 0 <= b < m ==> #[trigger] freq[a]@[b].count(v) == category_count(x, memb, a, b, v, x.len() as int),
        forall|k: int| 0 <= k < c.len() && k != to && k != from ==> #[trigger] c2[k] == c[k],
        forall|j: int| 0 <= j < m ==> receiving_rule(freq[to]@[j], x[p][j]@, c[to][j], #[trigger] c2[to][j]),
        forall|j: int| 0 <= j < m ==> losing_rule(freq[from]@[j], x[p][j]@, c[from][j], #[trigger] c2[from][j]),
    ensures
        moves_point(x, memb, c, c2, p, to, from),
{
    assert(c[to].len() == m && c2[to].len() == m && c[from].len() == m && c2[from].len() == m);
    assert forall|j: int| 0 <= j < c[to].len() implies receives(x, memb, to, j, x[p][j]@, c[to][j], #[trigger] c2[to][j]) by {
        let tab = freq[to]@[j];
        assert(receiving_rule(tab, x[p][j]@, c[to][j], c2[to][j]));
        assert(tab.count(x[p][j]@) == count_in_cluster(x, memb, to, j, x[p][j]@));
        assert(tab.count(c[to][j]@) == count_in_cluster(x, memb, to, j, c[to][j]@));
    }
    assert forall|j: int| 0 <= j < c[from].len() implies loses(x, memb, from, j, x[p][j]@, c[from][j], #[trigger] c2[from][j]) by {
        let tab = freq[from]@[j];
        let pv = x[p][j]@;
        let oc = c[from][j];
        let nc = c2[from][j];
        assert(losing_rule(tab, pv, oc, nc));
        assert(tab.count(pv) == count_in_cluster(x, memb, from, j, pv));
        assert(tab.count(nc@) == count_in_cluster(x, memb, from, j, nc@));
        if oc@ == pv && exists|v: T::V| #[trigger] count_in_cluster(x, memb, from, j, v) > count_in_cluster(x, memb, from, j, pv) {
            let w = choose|v: T::V| #[trigger] count_in_cluster(x, memb, from, j, v) > count_in_cluster(x, memb, from, j, pv);
            assert(tab.count(w) == count_in_cluster(x, memb, from, j, w));
            assert(tab.count(w) > tab.count(pv));
            assert forall|v: T::V| #[trigger] count_in_cluster(x, memb, from, j, v) <= count_in_cluster(x, memb, from, j, nc@) by {
                assert(tab.count(v) == count_in_cluster(x, memb, from, j, v));
                assert(tab.count(v) <= tab.count(nc@));
            }
        } else if oc@ == pv && exists|v: T::V| #[trigger] tab.count(v) > tab.count(pv) {
            let w = choose|v: T::V| #[trigger] tab.count(v) > tab.count(pv);
            assert(tab.count(w) == count_in_cluster(x, memb, from, j, w));
            assert(count_in_cluster(x, memb, from, j, w) > count_in_cluster(x, memb, from, j, pv));
        }
    }
}

/// Moves observation `p` to cluster `to`, keeping sizes, category counts and
/// the most-frequent property of the centroids up to date.
fn reassign<T: EquivalenceTarget>(
    x: &Matrix<T>,
    p: usize,
    to: usize,
    memberships: &mut Vec<usize>,
    cluster_counts: &mut Vec<usize>,
    cl_attr_freq: &mut Vec<Vec<FrequencyTable<T>>>,
    centroids: &mut Matrix<T>,
)
    requires
        p < x@.len(),
        to < old(centroids)@.len(),
        old(memberships)@.len() == x@.len(),
        old(memberships)@[p as int] != to,
        old(centroids).width() == x.width(),
        tracks(
            x@,
            old(memberships)@,
            x@.len() as int,
            old(centroids)@.len() as int,
            x.width() as int,
            old(cluster_counts)@,
            old(cl_attr_freq)@,
        ),
        centroids_lead(old(cl_attr_freq)@, old(centroids)@),
    ensures
        final(memberships)@ == old(memberships)@.update(p as int, to),
        final(centroids)@.len() == old(centroids)@.len(),
        final(centroids).width() == old(centroids).width(),
        tracks(
            x@,
            final(memberships)@,
            x@.len() as int,
            old(centroids)@.len() as int,
            x.width() as int,
            final(cluster_counts)@,
            final(cl_attr_freq)@,
        ),
        centroids_lead(final(cl_attr_freq)@, final(centroids)@),
        modes_observed(x@, old(centroids)@) ==> modes_observed(x@, final(centroids)@),
        moves_point(
            x@,
            final(memberships)@,
            old(centroids)@,
            final(centroids)@,
            p as int,
            to as int,
            old(memberships)@[p as int] as int,
        ),
{
    x.assert_wf();
    centroids.assert_wf();
    let ghost c0 = centroids@;
    let ghost n = x@.len() as int;
    let ghost k = centroids@.len() as int;
    let ghost m = x.width() as int;
    let ghost memb0 = memberships@;
    let ghost freq0 = cl_attr_freq@;
    let from = memberships[p];
    let row = x.row(p);
    let n_points = x.nrows();
    proof {
        lemma_non_member_bound(memb0, p as int, to as int, n);
        assert(cluster_counts@[to as int] == cluster_size(memb0, to as int, n));
        lemma_member_counted(x@, memb0, p as int, 0, n);
        assert forall|j: int| 0 <= j < row@.len() implies #[trigger] freq0[to as int]@[j].count(row@[j]@) < usize::MAX by {
            lemma_category_count_bound(x@, memb0, to as int, j, row@[j]@, n);
            assert(freq0[to as int]@[j].count(row@[j]@) == category_count(x@, memb0, to as int, j, row@[j]@, n));
        }
        assert forall|j: int| 0 <= j < row@.len() implies #[trigger] freq0[from as int]@[j].count(row@[j]@) > 0 by {
            lemma_member_counted(x@, memb0, p as int, j, n);
        }
    }
    memberships.set(p, to);
    let cf = cluster_counts[from as usize];
    cluster_counts.set(from, cf - 1);
    let ct = cluster_counts[to];
    cluster_counts.set(to, ct + 1);
    move_point_cat(row, to, from, cl_attr_freq, centroids);
    centroids.assert_wf();
    proof {
        let memb1 = memberships@;
        assert forall|a: int| 0 <= a < k implies #[trigger] cluster_counts@[a] == cluster_size(memb1, a, n) by {
            lemma_counts_update(x@, memb0, p as int, to, a, 0, x@[p as int][0]@, n);
        }
        assert forall|a: int, b: int, v: T::V|
            0 <= a < k && 0 <= b < m implies #[trigger] cl_attr_freq@[a]@[b].count(v) == category_count(
                x@,
                memb1,
                a,
                b,
                v,
                n,
            ) by {
            lemma_counts_update(x@, memb0, p as int, to, a, b, v, n);
        }
        assert forall|i: int| 0 <= i < n implies #[trigger] memb1[i] < k by {}
        lemma_moves_point_from_tables(x@, memb1, c0, centroids@, cl_attr_freq@, p as int, to as int, from as int, m);
        if modes_observed(x@, c0) {
            let c1 = centroids@;
            assert forall|l: int, j: int| 0 <= l < c1.len() && 0 <= j < c1[l].len() implies observed_in_column(
                x@,
                j,
                #[trigger] c1[l][j]@,
            ) by {
                assert(c1[l].len() == m);
                assert(c0[l].len() == m);
                if l == to as int {
                    assert(receiving_rule(cl_attr_freq@[l]@[j], row@[j]@, c0[l][j], c1[l][j]));
                    if c1[l][j]@ == row@[j]@ {
                        assert(x@[p as int][j]@ == c1[l][j]@);
                    } else {
                        assert(observed_in_column(x@, j, c0[l][j]@));
                    }
                } else if l == from as int {
                    let tab = cl_attr_freq@[l]@[j];
                    assert(losing_rule(tab, row@[j]@, c0[l][j], c1[l][j]));
                    if c1[l][j] == c0[l][j] {
                        assert(observed_in_column(x@, j, c0[l][j]@));
                    } else {
                        assert(tab.count(c1[l][j]@) > 0);
                        assert(tab.count(c1[l][j]@) == category_count(x@, memb1, l, j, c1[l][j]@, n));
                        let w = lemma_count_witness(x@, memb1, l, j, c1[l][j]@, n);
                        assert(x@[w][j]@ == c1[l][j]@);
                    }
                } else {
                    assert(c1[l] == c0[l]);
                    assert(observed_in_column(x@, j, c0[l][j]@));
                }
            }
        }
    }
}

/// `k` rows of `m` empty frequency tables.
fn new_tables<T: EquivalenceTarget>(k: usize, m: usize) -> (r: Vec<Vec<FrequencyTable<T>>>)
    ensures
        tables_shaped(r@, k as int, m as int),
        forall|a: int, b: int, v: T::V| 0 <= a < k && 0 <= b < m ==> #[trigger] r@[a]@[b].count(v) == 0,
{
    let mut r: Vec<Vec<FrequencyTable<T>>> = Vec::new();
    for a in 0..k
        invariant
            r@.len() == a,
            forall|c: int| 0 <= c < a ==> #[trigger] r@[c]@.len() == m,
            forall|c: int, b: int| 0 <= c < a && 0 <= b < m ==> #[trigger] r@[c]@[b].wf(),
            forall|c: int, b: int, v: T::V| 0 <= c < a && 0 <= b < m ==> #[trigger] r@[c]@[b].count(v) == 0,
    {
        let mut row: Vec<FrequencyTable<T>> = Vec::new();
        for b in 0..m
            invariant
                row@.len() == b,
                forall|c: int| 0 <= c < b ==> #[trigger] row@[c].wf(),
                forall|c: int, v: T::V| 0 <= c < b ==> #[trigger] row@[c].count(v) == 0,
        {
            row.push(FrequencyTable::new());
        }
        r.push(row);
    }
    r
}

/// Assigns every observation to its nearest centroid and builds the cluster
/// sizes and per-cluster category counts.
fn assign_to_nearest<T: EquivalenceTarget>(x: &Matrix<T>, centroids: &Matrix<T>) -> (r: (
    Vec<usize>,
    Vec<usize>,
    Vec<Vec<FrequencyTable<T>>>,
))
    requires
        centroids@.len() >= 1,
        centroids.width() == x.width(),
    ensures
        r.0@.len() == x@.len(),
        tracks(x@, r.0@, x@.len() as int, centroids@.len() as int, x.width() as int, r.1@, r.2@),
        forall|i: int| 0 <= i < x@.len() ==> is_nearest(centroids@, x@[i], #[trigger] r.0@[i] as int),
{
    x.assert_wf();
    let (n_points, n_attrs) = x.dim();
    let n_clusters = centroids.nrows();
    let mut memberships: Vec<usize> = Vec::new();
    let mut cluster_counts: Vec<usize> = Vec::new();
    for a in 0..n_clusters
        invariant
            cluster_counts@.len() == a,
            forall|c: int| 0 <= c < a ==> #[trigger] cluster_counts@[c] == 0,
    {
        cluster_counts.push(0);
    }
    let mut cl_attr_freq: Vec<Vec<FrequencyTable<T>>> = new_tables(n_clusters, n_attrs);
    for ipoint in 0..n_points
        invariant
            x.wf(),
            n_points == x@.len(),
            n_attrs == x.width(),
            n_clusters == centroids@.len(),
            n_clusters >= 1,
            memberships@.len() == ipoint,
            tracks(x@, memberships@, ipoint as int, n_clusters as int, n_attrs as int, cluster_counts@, cl_attr_freq@),
            forall|i: int| 0 <= i < ipoint ==> is_nearest(centroids@, x@[i], #[trigger] memberships@[i] as int),
    {
        let ghost memb0 = memberships@;
        let row = x.row(ipoint);
        let (clust, _) = closest_centroid(centroids, row);
        memberships.push(clust);
        let ghost memb1 = memberships@;
        proof {
            assert forall|a: int, b: int, v: T::V| 0 <= a < n_clusters && 0 <= b < n_attrs implies
                #[trigger] category_count(x@, memb1, a, b, v, ipoint as int) == category_count(x@, memb0, a, b, v, ipoint as int) by {
                lemma_counts_frame(x@, memb1, memb0, a, b, v, ipoint as int);
            }
            assert forall|a: int| 0 <= a < n_clusters implies
                #[trigger] cluster_size(memb1, a, ipoint as int) == cluster_size(memb0, a, ipoint as int) by {
                lemma_counts_frame(x@, memb1, memb0, a, 0, x@[0][0]@, ipoint as int);
            }
            lemma_category_count_bound(x@, memb0, clust as int, 0, x@[0][0]@, ipoint as int);
        }
        let c = cluster_counts[clust];
        cluster_counts.set(clust, c + 1);
        for iattr in 0..n_attrs
            invariant
                x.wf(),
                n_points == x@.len(),
                n_attrs == x.width(),
                n_clusters == centroids@.len(),
                ipoint < n_points,
                clust < n_clusters,
                memberships@ == memb1,
                memb1[ipoint as int] == clust,
                row@ == x@[ipoint as int],
                tables_shaped(cl_attr_freq@, n_clusters as int, n_attrs as int),
                forall|a: int, b: int, v: T::V|
                    0 <= a < n_clusters && 0 <= b < n_attrs ==> #[trigger] cl_attr_freq@[a]@[b].count(v)
                        == category_count(x@, memb1, a, b, v, if b < iattr { ipoint + 1 } else { ipoint as int }),
        {
            let ghost before = cl_attr_freq@;
            proof {
                lemma_category_count_bound(x@, memb1, clust as int, iattr as int, row@[iattr as int]@, ipoint as int);
            }
            cl_attr_freq[clust][iattr].increment(&row[iattr]);
            proof {
                assert forall|a: int, b: int, v: T::V|
                    0 <= a < n_clusters && 0 <= b < n_attrs implies #[trigger] cl_attr_freq@[a]@[b].count(v)
                        == category_count(x@, memb1, a, b, v, if b < iattr + 1 { ipoint + 1 } else { ipoint as int }) by {
                    if !(a == clust && b == iattr) {
                        assert(cl_attr_freq@[a]@[b] == before[a]@[b]);
                    }
                }
            }
        }
        proof {
            assert forall|a: int| 0 <= a < n_clusters implies #[trigger] cluster_counts@[a] == cluster_size(
                memb1,
                a,
                ipoint + 1,
            ) by {
                assert(cluster_size(memb1, a, ipoint + 1) == cluster_size(memb1, a, ipoint as int) + (if memb1[ipoint as int] == a {
                    1nat
                } else {
                    0nat
                }));
            }
            assert forall|i: int| 0 <= i < ipoint + 1 implies #[trigger] memb1[i] < n_clusters by {
                if i < ipoint {
                    assert(memb1[i] == memb0[i]);
                }
            }
            assert forall|i: int| 0 <= i < ipoint + 1 implies is_nearest(centroids@, x@[i], #[trigger] memb1[i] as int) by {
                if i < ipoint {
                    assert(memb1[i] == memb0[i]);
                }
            }
        }
    }
    (memberships, cluster_counts, cl_attr_freq)
}

/// The rule for a cluster with members: its centroid value `old_c` becomes a
/// most frequent category of `table` when some category is strictly more
/// frequent than `old_c`, and stays otherwise.
spec fn refresh_rule<T: View>(table: FrequencyTable<T>, old_c: T, new_c: T) -> bool {
    if exists|v: T::V| #[trigger] table.count(v) > table.count(old_c@) {
        forall|v: T::V| #[trigger] table.count(v) <= table.count(new_c@)
    } else {
        new_c == old_c
    }
}

/// Recomputes the centroids from the category counts: in a cluster with
/// members, each attribute of the centroid becomes a most frequent category
/// (it stays as it is when already most frequent); an empty cluster takes the
/// values of a randomly drawn observation.
fn initial_modes<T: EquivalenceTarget, R: RandomSource>(
    x: &Matrix<T>,
    cluster_counts: &Vec<usize>,
    cl_attr_freq: &Vec<Vec<FrequencyTable<T>>>,
    centroids: &mut Matrix<T>,
    rng: &mut R,
    Ghost(memb): Ghost<Seq<usize>>,
)
    requires
        x@.len() >= 1,
        old(centroids).width() == x.width(),
        tracks(x@, memb, x@.len() as int, old(centroids)@.len() as int, x.width() as int, cluster_counts@, cl_attr_freq@),
    ensures
        final(centroids)@.len() == old(centroids)@.len(),
        final(centroids).width() == old(centroids).width(),
        centroids_lead(cl_attr_freq@, final(centroids)@),
        forall|a: int|
            0 <= a < old(centroids)@.len() && cluster_counts@[a] == 0 ==> copies_some_observation(
                x@,
                #[trigger] final(centroids)@[a],
            ),
        forall|a: int, b: int|
            0 <= a < old(centroids)@.len() && cluster_counts@[a] > 0 && 0 <= b < x.width() ==> refresh_rule(
                cl_attr_freq@[a]@[b],
                old(centroids)@[a][b],
                #[trigger] final(centroids)@[a][b],
            ),
        modes_observed(x@, final(centroids)@),
{
    x.assert_wf();
    centroids.assert_wf();
    let (n_points, n_attrs) = x.dim();
    let n_clusters = centroids.nrows();
    let ghost k = n_clusters as int;
    let ghost m = n_attrs as int;
    let ghost c_init = centroids@;
    for ik in 0..n_clusters
        invariant
            k == n_clusters,
            m == n_attrs,
            x.wf(),
            n_points == x@.len(),
            n_points >= 1,
            n_attrs == x.width(),
            n_clusters == centroids@.len(),
            centroids.width() == n_attrs,
            centroids.wf(),
            c_init == old(centroids)@,
            tracks(x@, memb, n_points as int, k, m, cluster_counts@, cl_attr_freq@),
            forall|a: int, b: int, v: T::V|
                0 <= a < ik && 0 <= b < m ==> #[trigger] cl_attr_freq@[a]@[b].count(v)
                    <= cl_attr_freq@[a]@[b].count(centroids@[a][b]@),
            forall|a: int| ik <= a < k ==> #[trigger] centroids@[a] == c_init[a],
            forall|a: int|
                0 <= a < ik && cluster_counts@[a] == 0 ==> copies_some_observation(x@, #[trigger] centroids@[a]),
            forall|a: int, b: int|
                0 <= a < ik && cluster_counts@[a] > 0 && 0 <= b < m ==> refresh_rule(
                    cl_attr_freq@[a]@[b],
                    c_init[a][b],
                    #[trigger] centroids@[a][b],
                ),
            forall|a: int, b: int| 0 <= a < ik && 0 <= b < m ==> observed_in_column(x@, b, #[trigger] centroids@[a][b]@),
    {
        let ghost c0 = centroids@;
        let ghost ia = ik as int;
        if cluster_counts[ik] == 0 {
            let random_idx = rng.gen_index(n_points);
            for iattr in 0..n_attrs
                invariant
                    k == n_clusters,
                    m == n_attrs,
                    x.wf(),
                    n_points == x@.len(),
                    n_attrs == x.width(),
                    random_idx < n_points,
                    ik < n_clusters,
                    ia == ik,
                    n_clusters == centroids@.len(),
                    centroids.width() == n_attrs,
                    centroids.wf(),
                    forall|a: int| 0 <= a < k && a != ia ==> #[trigger] centroids@[a] == c0[a],
                    forall|b: int| 0 <= b < iattr ==> #[trigger] centroids@[ia][b]@ == x@[random_idx as int][b]@,
            {
                let v = x.get(random_idx, iattr).duplicate();
                let ghost cb = centroids@;
                centroids.set(ik, iattr, v);
                proof {
                    assert forall|a: int| 0 <= a < k && a != ia implies #[trigger] centroids@[a] == c0[a] by {
                        assert(centroids@[a] == cb[a]);
                    }
                    assert forall|b: int| 0 <= b < iattr + 1 implies #[trigger] centroids@[ia][b]@ == x@[random_idx as int][b]@ by {
                        if b < iattr {
                            assert(centroids@[ia][b] == cb[ia][b]);
                        }
                    }
                }
            }
            proof {
                assert(centroids@[ia].len() == m);
                assert(copies_observation(x@, centroids@[ia], random_idx as int));
                assert forall|a: int, b: int, v: T::V|
                    0 <= a < ik + 1 && 0 <= b < m implies #[trigger] cl_attr_freq@[a]@[b].count(v)
                        <= cl_attr_freq@[a]@[b].count(centroids@[a][b]@) by {
                    if a == ia {
                        lemma_empty_cluster_counts(x@, memb, a, b, v, n_points as int);
                    } else {
                        assert(centroids@[a] == c0[a]);
                    }
                }
                assert forall|a: int| ik + 1 <= a < k implies #[trigger] centroids@[a] == c_init[a] by {
                    assert(centroids@[a] == c0[a]);
                }
                assert forall|a: int|
                    0 <= a < ik + 1 && cluster_counts@[a] == 0 implies copies_some_observation(
                        x@,
                        #[trigger] centroids@[a],
                    ) by {
                    if a < ia {
                        assert(centroids@[a] == c0[a]);
                    } else {
                        assert(copies_observation(x@, centroids@[a], random_idx as int));
                    }
                }
                assert forall|a: int, b: int|
                    0 <= a < ik + 1 && cluster_counts@[a] > 0 && 0 <= b < m implies refresh_rule(
                        cl_attr_freq@[a]@[b],
                        c_init[a][b],
                        #[trigger] centroids@[a][b],
                    ) by {
                    assert(centroids@[a] == c0[a]);
                }
                assert forall|a: int, b: int| 0 <= a < ik + 1 && 0 <= b < m implies observed_in_column(
                    x@,
                    b,
                    #[trigger] centroids@[a][b]@,
                ) by {
                    if a < ia {
                        assert(centroids@[a] == c0[a]);
                    } else {
                        assert(x@[random_idx as int][b]@ == centroids@[a][b]@);
                    }
                }
            }
        } else {
            for iattr in 0..n_attrs
                invariant
                    k == n_clusters,
                    m == n_attrs,
                    x.wf(),
                    n_attrs == x.width(),
                    ik < n_clusters,
                    ia == ik,
                    n_clusters == centroids@.len(),
                    centroids.width() == n_attrs,
                    centroids.wf(),
                    c0[ia] == c_init[ia],
                    tables_shaped(cl_attr_freq@, k, m),
                    forall|a: int| 0 <= a < k && a != ia ==> #[trigger] centroids@[a] == c0[a],
                    forall|b: int| iattr <= b < m ==> #[trigger] centroids@[ia][b] == c0[ia][b],
                    forall|b: int, v: T::V|
                        0 <= b < iattr ==> #[trigger] cl_attr_freq@[ia]@[b].count(v)
                            <= cl_attr_freq@[ia]@[b].count(centroids@[ia][b]@),
                    forall|b: int|
                        0 <= b < iattr ==> refresh_rule(cl_attr_freq@[ia]@[b], c0[ia][b], #[trigger] centroids@[ia][b]),
            {
                let ghost c1 = centroids@;
                let ghost jb = iattr as int;
                let cur_count = cl_attr_freq[ik][iattr].count_of(centroids.get(ik, iattr));
                if let Some((best_val, max_count)) = cl_attr_freq[ik][iattr].most_frequent() {
                    if max_count > cur_count {
                        let b = best_val.duplicate();
                        centroids.set(ik, iattr, b);
                    }
                }
                proof {
                    let tab = cl_attr_freq@[ia]@[jb];
                    assert(c1[ia][jb] == c0[ia][jb]);
                    if exists|v: T::V| #[trigger] tab.count(v) > tab.count(c0[ia][jb]@) {
                        let w = choose|v: T::V| #[trigger] tab.count(v) > tab.count(c0[ia][jb]@);
                        assert(tab.count(w) > tab.count(c0[ia][jb]@));
                    }
                    assert(refresh_rule(tab, c0[ia][jb], centroids@[ia][jb]));
                    assert forall|a: int| 0 <= a < k && a != ia implies #[trigger] centroids@[a] == c0[a] by {
                        assert(centroids@[a] == c1[a]);
                    }
                    assert forall|b: int| iattr + 1 <= b < m implies #[trigger] centroids@[ia][b] == c0[ia][b] by {
                        assert(centroids@[ia][b] == c1[ia][b]);
                    }
                    assert forall|b: int, v: T::V|
                        0 <= b < iattr + 1 implies #[trigger] cl_attr_freq@[ia]@[b].count(v)
                            <= cl_attr_freq@[ia]@[b].count(centroids@[ia][b]@) by {
                        if b < iattr {
                            assert(centroids@[ia][b] == c1[ia][b]);
                        }
                    }
                    assert forall|b: int|
                        0 <= b < iattr + 1 implies refresh_rule(cl_attr_freq@[ia]@[b], c0[ia][b], #[trigger] centroids@[ia][b]) by {
                        if b < iattr {
                            assert(centroids@[ia][b] == c1[ia][b]);
                        }
                    }
                }
            }
            proof {
                let n = n_points as int;
                let p = lemma_size_witness(memb, ia, n);
                assert forall|a: int, b: int, v: T::V|
                    0 <= a < ik + 1 && 0 <= b < m implies #[trigger] cl_attr_freq@[a]@[b].count(v)
                        <= cl_attr_freq@[a]@[b].count(centroids@[a][b]@) by {
                    if a != ia {
                        assert(centroids@[a] == c0[a]);
                    }
                }
                assert forall|a: int| ik + 1 <= a < k implies #[trigger] centroids@[a] == c_init[a] by {
                    assert(centroids@[a] == c0[a]);
                }
                assert forall|a: int|
                    0 <= a < ik + 1 && cluster_counts@[a] == 0 implies copies_some_observation(
                        x@,
                        #[trigger] centroids@[a],
                    ) by {
                    assert(centroids@[a] == c0[a]);
                }
                assert forall|a: int, b: int|
                    0 <= a < ik + 1 && cluster_counts@[a] > 0 && 0 <= b < m implies refresh_rule(
                        cl_attr_freq@[a]@[b],
                        c_init[a][b],
                        #[trigger] centroids@[a][b],
                    ) by {
                    if a != ia {
                        assert(centroids@[a] == c0[a]);
                    }
                }
                assert forall|a: int, b: int| 0 <= a < ik + 1 && 0 <= b < m implies observed_in_column(
                    x@,
                    b,
                    #[trigger] centroids@[a][b]@,
                ) by {
                    if a != ia {
                        assert(centroids@[a] == c0[a]);
                    } else {
                        let tab = cl_attr_freq@[a]@[b];
                        let c = centroids@[a][b]@;
                        lemma_member_counted(x@, memb, p, b, n);
                        assert(tab.count(x@[p][b]@) <= tab.count(c));
                        let w = lemma_count_witness(x@, memb, a, b, c, n);
                        assert(x@[w][b]@ == c);
                    }
                }
            }
        }
    }
    proof {
        assert forall|l: int, j: int| 0 <= l < centroids@.len() && 0 <= j < centroids@[l].len() implies observed_in_column(
            x@,
            j,
            #[trigger] centroids@[l][j]@,
        ) by {
            assert(centroids@[l].len() == m);
        }
    }
}

/// Index of the largest cluster (the last one among equally large ones).
fn largest_cluster(cluster_counts: &Vec<usize>) -> (r: usize)
    requires
        cluster_counts@.len() >= 1,
    ensures
        r < cluster_counts@.len(),
        forall|a: int| 0 <= a < cluster_counts@.len() ==> #[trigger] cluster_counts@[a] <= cluster_counts@[r as int],
        forall|a: int| r < a < cluster_counts@.len() ==> #[trigger] cluster_counts@[a] < cluster_counts@[r as int],
{
    let mut best: usize = 0;
    for a in 0..cluster_counts.len()
        invariant
            cluster_counts@.len() >= 1,
            best < cluster_counts@.len(),
            a > 0 ==> best < a,
            a == 0 ==> best == 0,
            forall|c: int| 0 <= c < a ==> #[trigger] cluster_counts@[c] <= cluster_counts@[best as int],
            forall|c: int| best < c < a ==> #[trigger] cluster_counts@[c] < cluster_counts@[best as int],
    {
        if cluster_counts[a] >= cluster_counts[best] {
            best = a;
        }
    }
    best
}

/// The observations that belong to cluster `k`, in increasing order.
fn cluster_members(memberships: &Vec<usize>, k: usize) -> (r: Vec<usize>)
    ensures
        forall|t: int| 0 <= t < r@.len() ==> #[trigger] r@[t] < memberships@.len() && memberships@[r@[t] as int] == k,
        forall|s: int, t: int| 0 <= s < t < r@.len() ==> #[trigger] r@[s] < #[trigger] r@[t],
        forall|i: int| 0 <= i < memberships@.len() && memberships@[i] == k ==> #[trigger] r@.contains(i as usize),
{
    let mut r: Vec<usize> = Vec::new();
    for i in 0..memberships.len()
        invariant
            forall|t: int| 0 <= t < r@.len() ==> #[trigger] r@[t] < i && memberships@[r@[t] as int] == k,
            forall|s: int, t: int| 0 <= s < t < r@.len() ==> #[trigger] r@[s] < #[trigger] r@[t],
            forall|c: int| 0 <= c < i && memberships@[c] == k ==> #[trigger] r@.contains(c as usize),
    {
        if memberships[i] == k {
            let ghost prev = r@;
            r.push(i);
            proof {
                assert forall|c: int| 0 <= c < i + 1 && memberships@[c] == k implies #[trigger] r@.contains(c as usize) by {
                    if c < i {
                        assert(prev.contains(c as usize));
                        let t = choose|t: int| 0 <= t < prev.len() && prev[t] == c as usize;
                        assert(r@[t] == c as usize);
                    } else {
                        assert(r@[r@.len() - 1] == i);
                    }
                }
            }
        }
    }
    r
}

/// The step of a sweep at observation `ipoint`: moves it to its first
/// nearest centroid when that is not its cluster, and refills the cluster it
/// left, if that became empty, with a random member of the largest cluster.
/// Returns whether it moved, with the intermediate state, the nearest centroid
/// and the observation drawn for a refill.
fn step_point<T: EquivalenceTarget, R: RandomSource>(
    x: &Matrix<T>,
    ipoint: usize,
    memberships: &mut Vec<usize>,
    cluster_counts: &mut Vec<usize>,
    cl_attr_freq: &mut Vec<Vec<FrequencyTable<T>>>,
    centroids: &mut Matrix<T>,
    rng: &mut R,
) -> (r: (bool, Ghost<RunState<T>>, Ghost<int>, Ghost<int>))
    requires
        ipoint < x@.len(),
        old(centroids)@.len() >= 1,
        old(memberships)@.len() == x@.len(),
        old(centroids).width() == x.width(),
        tracks(
            x@,
            old(memberships)@,
            x@.len() as int,
            old(centroids)@.len() as int,
            x.width() as int,
            old(cluster_counts)@,
            old(cl_attr_freq)@,
        ),
        centroids_lead(old(cl_attr_freq)@, old(centroids)@),
        modes_observed(x@, old(centroids)@),
    ensures
        final(memberships)@.len() == x@.len(),
        final(centroids)@.len() == old(centroids)@.len(),
        final(centroids).width() == old(centroids).width(),
        tracks(
            x@,
            final(memberships)@,
            x@.len() as int,
            old(centroids)@.len() as int,
            x.width() as int,
            final(cluster_counts)@,
            final(cl_attr_freq)@,
        ),
        centroids_lead(final(cl_attr_freq)@, final(centroids)@),
        modes_observed(x@, final(centroids)@),
        point_step(
            x@,
            old(centroids)@.len() as int,
            (old(centroids)@, old(memberships)@),
            r.1@,
            (final(centroids)@, final(memberships)@),
            ipoint as int,
            r.2@,
            r.3@,
        ),
        r.0 == (r.2@ != old(memberships)@[ipoint as int] as int),
        !r.0 ==> final(centroids)@ == old(centroids)@ && final(memberships)@ == old(memberships)@,
{
    x.assert_wf();
    let ghost n = x@.len() as int;
    let ghost k = centroids@.len() as int;
    let ghost s0: RunState<T> = (centroids@, memberships@);
    let (to_clust, _) = closest_centroid(&*centroids, x.row(ipoint));
    let from_clust = memberships[ipoint];
    if to_clust == from_clust {
        return (false, Ghost(s0), Ghost(to_clust as int), Ghost(0));
    }
    reassign(x, ipoint, to_clust, memberships, cluster_counts, cl_attr_freq, centroids);
    let ghost mid: RunState<T> = (centroids@, memberships@);
    let ghost mut r_draw: int = 0;
    if cluster_counts[from_clust] == 0 {
        let largest = largest_cluster(&*cluster_counts);
        let candidates = cluster_members(&*memberships, largest);
        proof {
            let memb1 = memberships@;
            lemma_member_counted(x@, memb1, 0, 0, n);
            let c0 = memb1[0] as int;
            assert(cluster_counts@[c0] == cluster_size(memb1, c0, n));
            assert(cluster_counts@[c0] <= cluster_counts@[largest as int]);
            assert(cluster_counts@[largest as int] == cluster_size(memb1, largest as int, n));
            let w = lemma_size_witness(memb1, largest as int, n);
            assert(candidates@.contains(w as usize));
        }
        let pick = rng.gen_index(candidates.len());
        let rindx = candidates[pick];
        proof {
            r_draw = rindx as int;
            let memb1 = memberships@;
            if largest == from_clust {
                lemma_member_counted(x@, memb1, rindx as int, 0, n);
            }
            assert forall|a: int| 0 <= a < k implies #[trigger] cluster_size(memb1, a, n) == cluster_counts@[a] by {}
            assert(is_largest(memb1, n, k, memb1[rindx as int] as int));
        }
        reassign(x, rindx, from_clust, memberships, cluster_counts, cl_attr_freq, centroids);
    }
    proof {
        assert(cluster_counts@.len() == k);
    }
    (true, Ghost(mid), Ghost(to_clust as int), Ghost(r_draw))
}

/// The state after the initial assignment and the first modes starts a run
/// from the initial centroids `c0`.
proof fn lemma_starts_from<T: View>(
    x: Seq<Seq<T>>,
    k: int,
    m: int,
    c0: Seq<Seq<T>>,
    c1: Seq<Seq<T>>,
    memb: Seq<usize>,
    counts: Seq<usize>,
    freq: Seq<Vec<FrequencyTable<T>>>,
)
    requires
        memb.len() == x.len(),
        forall|i: int| 0 <= i < x.len() ==> is_nearest(c0, x[i], #[trigger] memb[i] as int),
        tracks(x, memb, x.len() as int, k, m, counts, freq),
        c0.len() == k,
        c1.len() == k,
        has_width(c0, m),
        has_width(c1, m),
        forall|a: int| 0 <= a < k && counts[a] == 0 ==> copies_some_observation(x, #[trigger] c1[a]),
        forall|a: int, b: int|
            0 <= a < k && counts[a] > 0 && 0 <= b < m ==> refresh_rule(freq[a]@[b], c0[a][b], #[trigger] c1[a][b]),
    ensures
        starts_from(x, k, c0, (c1, memb)),
{
    let n = x.len() as int;
    assert forall|l: int| 0 <= l < k implies #[trigger] c1[l].len() == c0[l].len() by {}
    assert forall|l: int| 0 <= l < k && cluster_size(memb, l, n) == 0 implies copies_some_observation(x, #[trigger] c1[l]) by {
        assert(counts[l] == cluster_size(memb, l, n));
    }
    assert forall|l: int, j: int|
        0 <= l < k && cluster_size(memb, l, n) > 0 && 0 <= j < c0[l].len() implies refreshes(
            x,
            memb,
            l,
            j,
            c0[l][j],
            #[trigger] c1[l][j],
        ) by {
        assert(counts[l] == cluster_size(memb, l, n));
        let tab = freq[l]@[j];
        let oc = c0[l][j];
        let nc = c1[l][j];
        assert(refresh_rule(tab, oc, nc));
        assert(tab.count(oc@) == count_in_cluster(x, memb, l, j, oc@));
        assert(tab.count(nc@) == count_in_cluster(x, memb, l, j, nc@));
        if exists|v: T::V| #[trigger] count_in_cluster(x, memb, l, j, v) > count_in_cluster(x, memb, l, j, oc@) {
            let w = choose|v: T::V| #[trigger] count_in_cluster(x, memb, l, j, v) > count_in_cluster(x, memb, l, j, oc@);
            assert(tab.count(w) == count_in_cluster(x, memb, l, j, w));
            assert(tab.count(w) > tab.count(oc@));
            assert forall|v: T::V| #[trigger] count_in_cluster(x, memb, l, j, v) <= count_in_cluster(x, memb, l, j, nc@) by {
                assert(tab.count(v) == count_in_cluster(x, memb, l, j, v));
                assert(tab.count(v) <= tab.count(nc@));
            }
        } else if exists|v: T::V| #[trigger] tab.count(v) > tab.count(oc@) {
            let w = choose|v: T::V| #[trigger] tab.count(v) > tab.count(oc@);
            assert(tab.count(w) == count_in_cluster(x, memb, l, j, w));
        }
    }
}

/// Changing neither the first `i` states nor the first `i` targets changes
/// no count of moves over them.
proof fn lemma_moved_points_prefix<T>(s1: Seq<RunState<T>>, t1: Seq<int>, s2: Seq<RunState<T>>, t2: Seq<int>, i: int)
    requires
        forall|j: int| 0 <= j < i ==> #[trigger] s1[j] == s2[j] && t1[j] == t2[j],
    ensures
        moved_points(s1, t1, i) == moved_points(s2, t2, i),
    decreases i,
{
    if i > 0 {
        lemma_moved_points_prefix(s1, t1, s2, t2, i - 1);
    }
}

/// Counts that track the memberships, with centroids that lead every table,
/// make a clustering whose modes are most frequent categories.
proof fn lemma_tracked_modes<T: View>(
    x: Seq<Seq<T>>,
    memb: Seq<usize>,
    k: int,
    m: int,
    counts: Seq<usize>,
    freq: Seq<Vec<FrequencyTable<T>>>,
    centroids: Seq<Seq<T>>,
)
    requires
        memb.len() == x.len(),
        tracks(x, memb, x.len() as int, k, m, counts, freq),
        centroids_lead(freq, centroids),
        centroids.len() == k,
        forall|a: int| 0 <= a < k ==> #[trigger] centroids[a].len() == m,
    ensures
        forall|a: int, b: int| 0 <= a < k && 0 <= b < m ==> is_mode(x, memb, a, b, #[trigger] centroids[a][b]@),
{
    assert forall|a: int, b: int| 0 <= a < k && 0 <= b < m implies is_mode(x, memb, a, b, #[trigger] centroids[a][b]@) by {
        assert forall|v: T::V| #[trigger] category_count(x, memb, a, b, v, x.len() as int) <= category_count(
            x,
            memb,
            a,
            b,
            centroids[a][b]@,
            x.len() as int,
        ) by {
            assert(freq[a]@[b].count(v) <= freq[a]@[b].count(centroids[a][b]@));
        }
    }
}

/// One run of Huang's incremental K-Modes algorithm.
///
/// Initializes the centroids, assigns every observation to its nearest
/// centroid, turns every centroid into the most frequent categories of its
/// cluster, then sweeps over the observations: an observation whose nearest
/// centroid is not its cluster's moves there at once (counts and centroids of
/// both clusters are updated; a cluster left empty takes a random member of
/// the largest cluster). Stops after the first sweep without moves or after
/// `max_n_iterations` sweeps. Returns the centroids, the cost, the
/// memberships, and the number of moves of each sweep made.
pub fn k_modes_single<T: EquivalenceTarget, R: RandomSource>(
    observations: &Matrix<T>,
    n_clusters: usize,
    max_n_iterations: u64,
    init: &KModesInit<T>,
    rng: &mut R,
) -> (r: (Matrix<T>, usize, Vec<usize>, Vec<usize>))
    requires
        observations@.len() >= 1,
        1 <= n_clusters <= observations@.len(),
        init.fits(n_clusters as int, observations@.len() as int, observations.width() as int),
    ensures
        r.0@.len() == n_clusters,
        r.0.width() == observations.width(),
        is_clustering(observations@, r.0@, r.2@, r.1 as nat),
        modes_observed(observations@, r.0@),
        finished_run(observations@, r.0@, r.2@, r.3@, max_n_iterations as int),
        is_run(observations@, *init, n_clusters as int, observations.width() as int, r.0@, r.2@, r.3@),
        r.3@.len() <= max_n_iterations,
        forall|t: int| 0 <= t < r.3@.len() - 1 ==> #[trigger] r.3@[t] > 0,
        r.3@.len() < max_n_iterations ==> r.3@.len() > 0 && r.3@[r.3@.len() - 1] == 0,
{
    let x = observations;
    x.assert_wf();
    let (n_points, n_attrs) = x.dim();
    let ghost n = n_points as int;
    let ghost k = n_clusters as int;
    let ghost m = n_attrs as int;
    let mut centroids = init.run(n_clusters, x, rng);
    centroids.assert_wf();
    let ghost c0 = centroids@;
    let (mut memberships, mut cluster_counts, mut cl_attr_freq) = assign_to_nearest(x, &centroids);
    initial_modes(x, &cluster_counts, &cl_attr_freq, &mut centroids, rng, Ghost(memberships@));
    centroids.assert_wf();
    proof {
        lemma_starts_from(x@, k, m, c0, centroids@, memberships@, cluster_counts@, cl_attr_freq@);
        lemma_assignment_cost_bound(x@, centroids@, memberships@, n, m);
        assert(n * m <= usize::MAX);
    }
    let ghost mut epochs: Seq<RunState<T>> = seq![(centroids@, memberships@)];
    let mut cost = calculate_cost(x, &centroids, memberships.as_slice());
    let mut iter: u64 = 0;
    let mut converged = false;
    let mut passes: Vec<usize> = Vec::new();
    while iter < max_n_iterations && !converged
        invariant
            passes@.len() == iter,
            iter <= max_n_iterations,
            forall|t: int| 0 <= t < iter - 1 ==> #[trigger] passes@[t] > 0,
            converged <==> iter > 0 && passes@[iter - 1] == 0,
            modes_observed(x@, centroids@),
            x.wf(),
            n == n_points,
            k == n_clusters,
            m == n_attrs,
            n_points == x@.len(),
            n_attrs == x.width(),
            n_points >= 1,
            n_clusters >= 1,
            centroids@.len() == n_clusters,
            centroids.width() == n_attrs,
            centroids.wf(),
            memberships@.len() == n_points,
            tracks(x@, memberships@, n, k, m, cluster_counts@, cl_attr_freq@),
            centroids_lead(cl_attr_freq@, centroids@),
            cost == total_cost(x@, centroids@, memberships@),
            converged ==> forall|i: int|
                0 <= i < n ==> is_nearest(centroids@, x@[i], #[trigger] memberships@[i] as int),
            init.initializes(x@, m, k, c0),
            c0.len() == k,
            has_width(c0, m),
            epochs.len() == iter + 1,
            starts_from(x@, k, c0, epochs[0]),
            epochs[iter as int] == (centroids@, memberships@),
            forall|t: int|
                0 <= t < iter ==> sweeps_from(x@, k, #[trigger] epochs[t], epochs[t + 1], passes@[t] as nat),
        decreases max_n_iterations - iter,
    {
        let ghost e0 = epochs;
        iter = iter + 1;
        let mut moves: usize = 0;
        let ghost c_epoch = centroids@;
        let ghost start: RunState<T> = (centroids@, memberships@);
        let ghost mut states: Seq<RunState<T>> = seq![start];
        let ghost mut mids: Seq<RunState<T>> = Seq::empty();
        let ghost mut tos: Seq<int> = Seq::empty();
        let ghost mut rs: Seq<int> = Seq::empty();
        for ipoint in 0..n_points
            invariant
                x.wf(),
                n == n_points,
                k == n_clusters,
                m == n_attrs,
                n_points == x@.len(),
                n_attrs == x.width(),
                n_points >= 1,
                n_clusters >= 1,
                centroids@.len() == n_clusters,
                centroids.width() == n_attrs,
                centroids.wf(),
                memberships@.len() == n_points,
                tracks(x@, memberships@, n, k, m, cluster_counts@, cl_attr_freq@),
                centroids_lead(cl_attr_freq@, centroids@),
                moves <= ipoint,
                modes_observed(x@, centroids@),
                moves == 0 ==> centroids@ == c_epoch,
                moves == 0 ==> forall|i: int|
                    0 <= i < ipoint ==> is_nearest(centroids@, x@[i], #[trigger] memberships@[i] as int),
                states.len() == ipoint + 1,
                mids.len() == ipoint,
                tos.len() == ipoint,
                rs.len() == ipoint,
                states[0] == start,
                states[ipoint as int] == (centroids@, memberships@),
                forall|i: int|
                    0 <= i < ipoint ==> #[trigger] point_step(x@, k, states[i], mids[i], states[i + 1], i, tos[i], rs[i]),
                moves == moved_points(states, tos, ipoint as int),
        {
            let ghost s_before = (centroids@, memberships@);
            let ghost memb_before = memberships@;
            let (moved, g_mid, g_to, g_r) = step_point(
                x,
                ipoint,
                &mut memberships,
                &mut cluster_counts,
                &mut cl_attr_freq,
                &mut centroids,
                rng,
            );
            centroids.assert_wf();
            let ghost prev_states = states;
            let ghost prev_tos = tos;
            proof {
                states = states.push((centroids@, memberships@));
                mids = mids.push(g_mid@);
                tos = tos.push(g_to@);
                rs = rs.push(g_r@);
                assert forall|i: int|
                    0 <= i < ipoint + 1 implies #[trigger] point_step(x@, k, states[i], mids[i], states[i + 1], i, tos[i], rs[i]) by {
                    if i < ipoint {
                        assert(states[i] == prev_states[i]);
                        assert(states[i + 1] == prev_states[i + 1]);
                    }
                }
                lemma_moved_points_prefix(states, tos, prev_states, prev_tos, ipoint as int);
                assert(states[ipoint as int] == s_before);
            }
            if moved {
                moves = moves + 1;
            } else {
                proof {
                    assert(is_nearest(s_before.0, x@[ipoint as int], g_to@));
                    if moves == 0 {
                        assert forall|i: int| 0 <= i < ipoint + 1 implies is_nearest(
                            centroids@,
                            x@[i],
                            #[trigger] memberships@[i] as int,
                        ) by {
                            if i == ipoint {
                                assert(memberships@[i] == memb_before[i]);
                            }
                        }
                    }
                }
            }
        }
        proof {
            lemma_assignment_cost_bound(x@, centroids@, memberships@, n, m);
            assert(sweep_chain(x@, k, states, mids, tos, rs));
            assert(sweeps_from(x@, k, start, (centroids@, memberships@), moves as nat));
        }
        cost = calculate_cost(x, &centroids, memberships.as_slice());
        let ghost prev = passes@;
        passes.push(moves);
        proof {
            epochs = epochs.push((centroids@, memberships@));
            assert forall|t: int| 0 <= t < iter - 1 implies #[trigger] passes@[t] > 0 by {
                assert(passes@[t] == prev[t]);
            }
            assert forall|t: int|
                0 <= t < iter implies sweeps_from(x@, k, #[trigger] epochs[t], epochs[t + 1], passes@[t] as nat) by {
                if t < iter - 1 {
                    assert(epochs[t] == e0[t]);
                    assert(epochs[t + 1] == e0[t + 1]);
                    assert(passes@[t] == prev[t]);
                } else {
                    assert(epochs[t] == e0[t]);
                    assert(e0[t] == start);
                }
            }
        }
        if moves == 0 {
            converged = true;
        }
    }
    centroids.assert_wf();
    proof {
        lemma_tracked_modes(x@, memberships@, k, m, cluster_counts@, cl_attr_freq@, centroids@);
        assert forall|a: int, b: int|
            0 <= a < centroids@.len() && 0 <= b < centroids@[a].len() implies is_mode(
                x@,
                memberships@,
                a,
                b,
                #[trigger] centroids@[a][b]@,
            ) by {
            assert(centroids@[a].len() == m);
        }
        assert(run_chain(x@, *init, k, m, c0, epochs, passes@));
    }
    (centroids, cost, memberships, passes)
}

/// `sweeps` are the move counts of the sweeps of a run allowed `max` sweeps,
/// and `memb` the memberships it ended with: at most `max` sweeps; every sweep
/// but the last moved a point; the run stopped early only after a sweep
/// without moves; and after such a sweep every observation is at its nearest
/// mode.
pub open spec fn finished_run<T: View>(
    x: Seq<Seq<T>>,
    modes: Seq<Seq<T>>,
    memb: Seq<usize>,
    sweeps: Seq<usize>,
    max: int,
) -> bool {
    &&& sweeps.len() <= max
    &&& forall|t: int| 0 <= t < sweeps.len() - 1 ==> #[trigger] sweeps[t] > 0
    &&& sweeps.len() < max ==> sweeps.len() > 0 && sweeps[sweeps.len() - 1] == 0
    &&& sweeps.len() > 0 && sweeps[sweeps.len() - 1] == 0 ==> forall|i: int|
        0 <= i < x.len() ==> is_nearest(modes, x[i], #[trigger] memb[i] as int)
}

/// K-Modes clustering model for categorical data (Huang [1998]).
///
/// Holds one mode vector per cluster, which minimizes the sum of matching
/// dissimilarities `P(W, Q)` of the observations to the modes of their
/// clusters, and that cost, with the cost of each run that fitting made and
/// the move counts of the sweeps of the run kept.
#[derive(Debug, PartialEq, Eq)]
pub struct KModes<T: EquivalenceTarget> {
    modes: Matrix<T>,
    cost: usize,
    history: RunHistory,
}

/// How a model came about: the cost of each run that fitting made, and the
/// move counts of the sweeps of the run kept. It takes no part in comparing
/// models: two models are equal when their modes and costs are.
#[derive(Debug)]
pub struct RunHistory {
    run_costs: Vec<usize>,
    sweeps: Vec<usize>,
}

impl PartialEq for RunHistory {
    fn eq(&self, other: &Self) -> (r: bool) {
        true
    }
}

impl vstd::std_specs::cmp::PartialEqSpecImpl for RunHistory {
    open spec fn obeys_eq_spec() -> bool {
        true
    }

    open spec fn eq_spec(&self, other: &Self) -> bool {
        true
    }
}

impl Eq for RunHistory {
}

impl<T: EquivalenceTarget> Clone for KModes<T> {
    /// A copy of the model, mode by mode.
    fn clone(&self) -> (r: Self)
        ensures
            r.cost() == self.cost(),
            r.modes().width() == self.modes().width(),
            r.modes()@.len() == self.modes()@.len(),
            forall|i: int, j: int|
                0 <= i < self.modes()@.len() && 0 <= j < self.modes()@[i].len() ==> #[trigger] r.modes()@[i][j]@
                    == self.modes()@[i][j]@,
            r.run_costs()@ == self.run_costs()@,
            r.sweeps()@ == self.sweeps()@,
    {
        KModes {
            modes: self.modes.duplicate(),
            cost: self.cost,
            history: RunHistory {
                run_costs: self.history.run_costs.clone(),
                sweeps: self.history.sweeps.clone(),
            },
        }
    }
}

/// `modes`, `memb`, `sweeps` and `cost` are what a run of K-Modes on `x`
/// (method `init`, `k` clusters, `m` attributes, at most `max` sweeps) ends
/// with: the run itself, the clustering it leaves, its cost, and how it
/// stopped.
pub open spec fn is_run_result<T: View>(
    x: Seq<Seq<T>>,
    init: KModesInit<T>,
    k: int,
    m: int,
    max: int,
    modes: Seq<Seq<T>>,
    memb: Seq<usize>,
    sweeps: Seq<usize>,
    cost: nat,
) -> bool {
    &&& is_run(x, init, k, m, modes, memb, sweeps)
    &&& is_clustering(x, modes, memb, cost)
    &&& finished_run(x, modes, memb, sweeps, max)
}

/// `c` is the cost with which some run of K-Modes on `x` ends.
pub open spec fn is_run_cost<T: View>(x: Seq<Seq<T>>, init: KModesInit<T>, k: int, m: int, max: int, c: nat) -> bool {
    exists|modes: Seq<Seq<T>>, memb: Seq<usize>, sweeps: Seq<usize>|
        #[trigger] is_run_result(x, init, k, m, max, modes, memb, sweeps, c)
}

impl<T: EquivalenceTarget> KModes<T> {
    /// A parameter builder with `n_clusters` clusters and the default generator.
    pub fn params(n_clusters: usize) -> (r: KModesParams<T, Xoshiro256Plus>)
        ensures
            r.valid().n_clusters() == n_clusters,
            r.valid().max_n_iterations() == 100,
            r.valid().n_runs() == 10,
            *r.valid().init_method() is Cao,
            !r.valid().verbose(),
            *r.valid().rng() == seeded_generator(42),
    {
        KModesParams::new(n_clusters)
    }

    /// A parameter builder with `n_clusters` clusters and a custom generator.
    pub fn params_with_rng<R>(n_clusters: usize, rng: R) -> (r: KModesParams<T, R>)
        ensures
            r.valid().n_clusters() == n_clusters,
            r.valid().max_n_iterations() == 100,
            r.valid().n_runs() == 10,
            *r.valid().init_method() is Cao,
            !r.valid().verbose(),
            *r.valid().rng() == rng,
    {
        KModesParams::new_with_rng(n_clusters, rng)
    }

    /// A model made of the given modes and cost (as when reading a stored
    /// model back), recorded as the result of a single run with no sweeps.
    pub fn from_parts(modes: Matrix<T>, cost: usize) -> (r: Self)
        ensures
            r.modes() == modes,
            r.cost() == cost,
            r.run_costs()@ == seq![cost],
            r.sweeps()@ == Seq::<usize>::empty(),
    {
        KModes { modes, cost, history: RunHistory { run_costs: vec![cost], sweeps: Vec::new() } }
    }

    /// Cluster modes, one row per cluster.
    pub closed spec fn modes_spec(&self) -> &Matrix<T> {
        &self.modes
    }

    /// Cluster modes matrix with shape `(n_clusters, n_features)`.
    #[verifier::when_used_as_spec(modes_spec)]
    pub fn modes(&self) -> (r: &Matrix<T>)
        ensures
            r == self.modes_spec(),
    {
        &self.modes
    }

    /// Total dissimilarity cost of the fitted clustering.
    pub closed spec fn cost_spec(&self) -> usize {
        self.cost
    }

    /// Total dissimilarity cost of the fitted clustering.
    #[verifier::when_used_as_spec(cost_spec)]
    pub fn cost(&self) -> (r: usize)
        ensures
            r == self.cost_spec(),
    {
        self.cost
    }

    /// The cost of each run that fitting made, in order.
    pub closed spec fn run_costs_spec(&self) -> &Vec<usize> {
        &self.history.run_costs
    }

    /// The cost of each run that fitting made, in order.
    #[verifier::when_used_as_spec(run_costs_spec)]
    pub fn run_costs(&self) -> (r: &Vec<usize>)
        ensures
            r == self.run_costs_spec(),
    {
        &self.history.run_costs
    }

    /// The move counts of the sweeps of the run kept, in order.
    pub closed spec fn sweeps_spec(&self) -> &Vec<usize> {
        &self.history.sweeps
    }

    /// The move counts of the sweeps of the run kept, in order.
    #[verifier::when_used_as_spec(sweeps_spec)]
    pub fn sweeps(&self) -> (r: &Vec<usize>)
        ensures
            r == self.sweeps_spec(),
    {
        &self.history.sweeps
    }

    /// The model is the first run of least cost among `runs` runs, each of which
    /// is a run of K-Modes on `x` with method `init`, `k` clusters and at most
    /// `max` sweeps.
    pub open spec fn least_of_runs(&self, x: &Matrix<T>, init: KModesInit<T>, k: int, max: int, runs: int) -> bool {
        &&& self.run_costs()@.len() == runs
        &&& forall|t: int| 0 <= t < runs ==> self.cost() <= #[trigger] self.run_costs()@[t]
        &&& exists|b: int|
            0 <= b < runs && #[trigger] self.run_costs()@[b] == self.cost() && forall|t: int|
                0 <= t < b ==> self.cost() < #[trigger] self.run_costs()@[t]
        &&& forall|t: int|
            0 <= t < runs ==> is_run_cost(x@, init, k, x.width() as int, max, #[trigger] self.run_costs()@[t] as nat)
    }

    /// The model is what a run of K-Modes on `x` (method `init`, `k` clusters,
    /// at most `max` sweeps) ends with: its modes have the shape `(k, width of
    /// x)` and hold only categories seen in their columns, and with the
    /// memberships the run ended with, the modes, cost and sweeps are the run's
    /// result (see `is_run_result`).
    pub open spec fn fitted(&self, x: &Matrix<T>, init: KModesInit<T>, k: int, max: int) -> bool {
        &&& self.modes()@.len() == k
        &&& self.modes().width() == x.width()
        &&& self.modes().wf()
        &&& modes_observed(x@, self.modes()@)
        &&& self.sweeps()@.len() <= max
        &&& forall|t: int| 0 <= t < self.sweeps()@.len() - 1 ==> #[trigger] self.sweeps()@[t] > 0
        &&& self.sweeps()@.len() < max ==> self.sweeps()@.len() > 0 && self.sweeps()@[self.sweeps()@.len() - 1] == 0
        &&& exists|memb: Seq<usize>|
            #[trigger] is_run_result(
                x@,
                init,
                k,
                x.width() as int,
                max,
                self.modes()@,
                memb,
                self.sweeps()@,
                self.cost() as nat,
            )
    }

    /// The cost of a model fitted on `N` observations of `M` attributes is at
    /// most `N * M`, and below it when `N` and `M` are positive.
    pub proof fn lemma_fitted_cost_bound(&self, x: &Matrix<T>, init: KModesInit<T>, k: int, max: int)
        requires
            self.fitted(x, init, k, max),
            x.wf(),
        ensures
            self.cost() <= x@.len() * x.width(),
            x@.len() >= 1 && x.width() >= 1 ==> self.cost() < x@.len() * x.width(),
    {
        let memb = choose|memb: Seq<usize>|
            #[trigger] is_run_result(
                x@,
                init,
                k,
                x.width() as int,
                max,
                self.modes()@,
                memb,
                self.sweeps()@,
                self.cost() as nat,
            );
        lemma_clustering_cost_bound(x@, self.modes()@, memb, self.cost() as nat, x.width() as int);
    }

    /// Index of the mode nearest to one observation.
    pub fn predict_row(&self, observation: &[T]) -> (r: usize)
        ensures
            is_nearest(self.modes()@, observation@, r as int),
    {
        closest_centroid(&self.modes, observation).0
    }

    /// Writes into `memberships` the index of the mode nearest to each observation.
    pub fn predict_inplace(&self, observations: &Matrix<T>, memberships: &mut Vec<usize>)
        requires
            observations@.len() == old(memberships)@.len(),
        ensures
            final(memberships)@.len() == observations@.len(),
            forall|i: int|
                0 <= i < observations@.len() ==> is_nearest(
                    self.modes()@,
                    observations@[i],
                    #[trigger] final(memberships)@[i] as int,
                ),
    {
        let n = observations.nrows();
        for i in 0..n
            invariant
                n == observations@.len(),
                memberships@.len() == n,
                forall|a: int|
                    0 <= a < i ==> is_nearest(self.modes()@, observations@[a], #[trigger] memberships@[a] as int),
        {
            let c = closest_centroid(&self.modes, observations.row(i)).0;
            memberships.set(i, c);
        }
    }

    /// A membership vector of the right length to predict into (all zeros).
    pub fn default_target(&self, x: &Matrix<T>) -> (r: Vec<usize>)
        ensures
            r@.len() == x@.len(),
            forall|i: int| 0 <= i < r@.len() ==> #[trigger] r@[i] == 0,
    {
        let n = x.nrows();
        let mut r: Vec<usize> = Vec::new();
        for i in 0..n
            invariant
                r@.len() == i,
                forall|a: int| 0 <= a < i ==> #[trigger] r@[a] == 0,
        {
            r.push(0);
        }
        r
    }

    /// Index of the mode nearest to each observation.
    pub fn predict(&self, observations: &Matrix<T>) -> (r: Vec<usize>)
        ensures
            r@.len() == observations@.len(),
            forall|i: int|
                0 <= i < observations@.len() ==> is_nearest(self.modes()@, observations@[i], #[trigger] r@[i] as int),
    {
        let mut r = self.default_target(observations);
        self.predict_inplace(observations, &mut r);
        r
    }
}

impl<T: EquivalenceTarget, R> KModesValidParams<T, R> {
    /// Number of runs that `fit` makes: one for the deterministic `Cao` and for
    /// `Precomputed` centroids, `n_runs` otherwise.
    pub open spec fn effective_runs(&self) -> int {
        match *self.init_method() {
            KModesInit::Cao => if self.n_runs() > 1 { 1 } else { self.n_runs() as int },
            KModesInit::Precomputed(_) => if self.n_runs() > 1 { 1 } else { self.n_runs() as int },
            _ => self.n_runs() as int,
        }
    }

    /// What `fit` returns for the observations `x`: an error for an empty
    /// dataset, for more clusters than observations, and when no run is made;
    /// otherwise a fitted model.
    pub open spec fn fit_outcome(&self, x: &Matrix<T>, r: Result<KModes<T>, KModesError>) -> bool {
        let n = x@.len();
        let k = self.n_clusters();
        if n == 0 {
            r matches Err(KModesError::LinfaError(e)) && e == parameters_error_of("Dataset cannot be empty"@)
        } else if k > n {
            r matches Err(KModesError::LinfaError(e)) && e == parameters_error_of(
                cluster_count_text(k as nat, n),
            )
        } else if self.effective_runs() == 0 {
            r matches Err(KModesError::LinfaError(e)) && e == parameters_error_of(
                "Failed to fit K-Modes centroids"@,
            )
        } else {
            r matches Ok(model) && model.fitted(
                x,
                *self.init_method(),
                k as int,
                self.max_n_iterations() as int,
            ) && model.least_of_runs(
                x,
                *self.init_method(),
                k as int,
                self.max_n_iterations() as int,
                self.effective_runs(),
            )
        }
    }

    /// What `fit` needs: on a dataset that it clusters, at least one cluster,
    /// and precomputed centroids of shape `(n_clusters, n_features)`.
    pub open spec fn fit_requires(&self, x: &Matrix<T>) -> bool {
        x@.len() > 0 && self.n_clusters() <= x@.len() ==> {
            &&& self.n_clusters() >= 1
            &&& self.init_method().fits(self.n_clusters() as int, x@.len() as int, x.width() as int)
        }
    }
}

impl<T: EquivalenceTarget, R: RandomSource + Clone> KModesValidParams<T, R> {
    /// Fits K-Modes on the observations: makes the configured number of runs
    /// (one for `Cao` and `Precomputed`) and keeps the run of least cost.
    pub fn fit(&self, observations: &Matrix<T>) -> (r: Result<KModes<T>, KModesError>)
        requires
            self.fit_requires(observations),
        ensures
            self.fit_outcome(observations, r),
    {
        let x = observations;
        x.assert_wf();
        let (n_points, n_attrs) = x.dim();
        if n_points == 0 {
            return Err(KModesError::LinfaError(parameters_error(String::from_str("Dataset cannot be empty"))));
        }
        if self.n_clusters() > n_points {
            return Err(
                KModesError::LinfaError(parameters_error(cluster_count_message(self.n_clusters(), n_points))),
            );
        }
        let mut rng = self.rng().clone();
        let mut best: Option<(Matrix<T>, usize, Vec<usize>)> = None;
        let n_runs: usize = match self.init_method() {
            KModesInit::Cao if self.n_runs() > 1 => 1,
            KModesInit::Precomputed(_) if self.n_runs() > 1 => 1,
            _ => self.n_runs(),
        };
        assert(n_runs == self.effective_runs());
        // The cost and modes of each run made, and the index of the run kept.
        let mut run_costs: Vec<usize> = Vec::new();
        let ghost mut run_modes: Seq<Seq<Seq<T>>> = Seq::empty();
        let ghost mut best_idx: int = 0;
        let mut run_idx: usize = 0;
        while run_idx < n_runs
            invariant
                run_idx <= n_runs,
                x.wf(),
                n_points == x@.len(),
                n_attrs == x.width(),
                n_points >= 1,
                1 <= self.n_clusters() <= n_points,
                self.init_method().fits(self.n_clusters() as int, n_points as int, n_attrs as int),
                run_costs@.len() == run_idx,
                run_modes.len() == run_idx,
                forall|t: int|
                    0 <= t < run_idx ==> is_run_cost(
                        x@,
                        *self.init_method(),
                        self.n_clusters() as int,
                        n_attrs as int,
                        self.max_n_iterations() as int,
                        #[trigger] run_costs@[t] as nat,
                    ),
                run_idx > 0 <==> best is Some,
                match best {
                    Some((c, cost, sw)) => {
                        &&& c@.len() == self.n_clusters()
                        &&& c.width() == n_attrs
                        &&& modes_observed(x@, c@)
                        &&& exists|memb: Seq<usize>|
                            #[trigger] is_run_result(
                                x@,
                                *self.init_method(),
                                self.n_clusters() as int,
                                n_attrs as int,
                                self.max_n_iterations() as int,
                                c@,
                                memb,
                                sw@,
                                cost as nat,
                            )
                        &&& 0 <= best_idx < run_idx
                        &&& cost == run_costs@[best_idx]
                        &&& c@ == run_modes[best_idx]
                        &&& forall|t: int| 0 <= t < run_idx ==> cost <= #[trigger] run_costs@[t]
                        &&& forall|t: int| 0 <= t < best_idx ==> cost < #[trigger] run_costs@[t]
                    },
                    None => true,
                },
            decreases n_runs - run_idx,
        {
            let (centroids, cost, memberships, sweeps) = k_modes_single(
                x,
                self.n_clusters(),
                self.max_n_iterations(),
                self.init_method(),
                &mut rng,
            );
            let ghost prev = best;
            let ghost c = centroids@;
            let ghost sw = sweeps@;
            let ghost prev_costs = run_costs@;
            run_costs.push(cost);
            proof {
                run_modes = run_modes.push(c);
                assert(is_run_result(
                    x@,
                    *self.init_method(),
                    self.n_clusters() as int,
                    n_attrs as int,
                    self.max_n_iterations() as int,
                    c,
                    memberships@,
                    sw,
                    cost as nat,
                ));
                assert forall|t: int|
                    0 <= t < run_idx + 1 implies is_run_cost(
                        x@,
                        *self.init_method(),
                        self.n_clusters() as int,
                        n_attrs as int,
                        self.max_n_iterations() as int,
                        #[trigger] run_costs@[t] as nat,
                    ) by {
                    if t < run_idx {
                        assert(run_costs@[t] == prev_costs[t]);
                    }
                }
            }
            let ghost memb_run = memberships@;
            best = keep_least(best, centroids, cost, sweeps);
            proof {
                let ri = run_idx as int;
                match prev {
                    None => {
                        best_idx = ri;
                    },
                    Some((_, pc, _)) => {
                        if cost < pc {
                            best_idx = ri;
                        }
                    },
                }
                let gb = best;
                match gb {
                    Some((bc, bcost, bsw)) => {
                        if best_idx == ri {
                            assert(bc@ == c && bcost == cost && bsw@ == sw);
                            assert(is_run_result(
                                x@,
                                *self.init_method(),
                                self.n_clusters() as int,
                                n_attrs as int,
                                self.max_n_iterations() as int,
                                bc@,
                                memb_run,
                                bsw@,
                                bcost as nat,
                            ));
                        } else {
                            assert(run_costs@[best_idx] == prev_costs[best_idx]);
                        }
                        assert forall|t: int| 0 <= t < ri + 1 implies bcost <= #[trigger] run_costs@[t] by {
                            if t < ri {
                                assert(run_costs@[t] == prev_costs[t]);
                            }
                        }
                        assert forall|t: int| 0 <= t < best_idx implies bcost < #[trigger] run_costs@[t] by {
                            assert(run_costs@[t] == prev_costs[t]);
                        }
                    },
                    None => {},
                }
            }
            run_idx = run_idx + 1;
        }
        match best {
            None => Err(
                KModesError::LinfaError(parameters_error(String::from_str("Failed to fit K-Modes centroids"))),
            ),
            Some((modes, best_cost, sweeps)) => {
                modes.assert_wf();
                let ghost c = modes@;
                let ghost sw = sweeps@;
                let model = KModes { modes, cost: best_cost, history: RunHistory { run_costs, sweeps } };
                proof {
                    let memb = choose|memb: Seq<usize>|
                        #[trigger] is_run_result(
                            x@,
                            *self.init_method(),
                            self.n_clusters() as int,
                            n_attrs as int,
                            self.max_n_iterations() as int,
                            c,
                            memb,
                            sw,
                            best_cost as nat,
                        );
                    assert(is_run_result(
                        x@,
                        *self.init_method(),
                        self.n_clusters() as int,
                        x.width() as int,
                        self.max_n_iterations() as int,
                        model.modes()@,
                        memb,
                        model.sweeps()@,
                        model.cost() as nat,
                    ));
                    assert(model.run_costs()@[best_idx] == model.cost());
                }
                Ok(model)
            },
        }
    }
}

/// The better of the best run so far and a new run with `modes`, `cost` and
/// `sweeps`: the new run only when there is no run yet or its cost is strictly
/// lower, so that the earliest run of least cost is kept.
fn keep_least<T>(
    best: Option<(Matrix<T>, usize, Vec<usize>)>,
    modes: Matrix<T>,
    cost: usize,
    sweeps: Vec<usize>,
) -> (r: Option<(Matrix<T>, usize, Vec<usize>)>)
    ensures
        r == match best {
            None => Some((modes, cost, sweeps)),
            Some(b) => if cost < b.1 {
                Some((modes, cost, sweeps))
            } else {
                Some(b)
            },
        },
{
    match best {
        None => Some((modes, cost, sweeps)),
        Some((m, c, s)) => if cost < c {
            Some((modes, cost, sweeps))
        } else {
            Some((m, c, s))
        },
    }
}

impl<T: EquivalenceTarget, R: RandomSource + Clone> KModesParams<T, R> {
    /// Checks the hyperparameters, then fits K-Modes on the observations.
    pub fn fit(&self, observations: &Matrix<T>) -> (r: Result<KModes<T>, KModesError>)
        requires
            self.first_error() is None ==> self.valid().fit_requires(observations),
        ensures
            match self.first_error() {
                Some(e) => r matches Err(KModesError::InvalidParams(e2)) && e2 == e,
                None => self.valid().fit_outcome(observations, r),
            },
    {
        match self.check_ref() {
            Err(e) => Err(KModesError::InvalidParams(e)),
            Ok(valid) => valid.fit(observations),
        }
    }
}

} // verus!
