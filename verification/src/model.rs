//! The mathematical model of K-Modes: dissimilarity, cluster membership counts,
//! modes and the clustering cost, with the lemmas that relate them.

use vstd::prelude::*;

verus! {

/// Number of positions `j < n` at which `a[j]` and `b[j]` are different categories.
pub open spec fn mismatches<T: View>(a: Seq<T>, b: Seq<T>, n: int) -> nat
    decreases n,
{
    if n <= 0 {
        0
    } else {
        mismatches(a, b, n - 1) + (if a[n - 1]@ == b[n - 1]@ { 0nat } else { 1nat })
    }
}

/// Simple matching dissimilarity: the number of attributes (over the common
/// length of the two vectors) whose categories differ.
pub open spec fn dissimilarity<T: View>(a: Seq<T>, b: Seq<T>) -> nat {
    mismatches(a, b, if a.len() <= b.len() { a.len() as int } else { b.len() as int })
}

/// `k` is the index that a nearest-centroid scan returns for `obs`: the first
/// centroid at minimal dissimilarity (distances of `usize::MAX` never win, and
/// when nothing wins the scan answers `0`).
pub open spec fn is_nearest<T: View>(centroids: Seq<Seq<T>>, obs: Seq<T>, k: int) -> bool {
    if exists|c: int|
        0 <= c < centroids.len() && #[trigger] dissimilarity(centroids[c], obs) < usize::MAX {
        &&& 0 <= k < centroids.len()
        &&& forall|c: int|
            0 <= c < centroids.len() ==> dissimilarity(centroids[k], obs) <= #[trigger] dissimilarity(
                centroids[c],
                obs,
            )
        &&& forall|c: int|
            0 <= c < k ==> dissimilarity(centroids[k], obs) < #[trigger] dissimilarity(
                centroids[c],
                obs,
            )
    } else {
        k == 0
    }
}

/// Number of observations among the first `n` that belong to cluster `k`.
pub open spec fn cluster_size(memb: Seq<usize>, k: int, n: int) -> nat
    decreases n,
{
    if n <= 0 {
        0
    } else {
        cluster_size(memb, k, n - 1) + (if memb[n - 1] == k { 1nat } else { 0nat })
    }
}

/// Number of observations among the first `n` that belong to cluster `k` and
/// whose attribute `j` is the category `v`.
pub open spec fn category_count<T: View>(
    x: Seq<Seq<T>>,
    memb: Seq<usize>,
    k: int,
    j: int,
    v: T::V,
    n: int,
) -> nat
    decreases n,
{
    if n <= 0 {
        0
    } else {
        category_count(x, memb, k, j, v, n - 1) + (if memb[n - 1] == k && x[n - 1][j]@ == v {
            1nat
        } else {
            0nat
        })
    }
}

/// `c` is a most frequent category of attribute `j` in cluster `k`.
pub open spec fn is_mode<T: View>(x: Seq<Seq<T>>, memb: Seq<usize>, k: int, j: int, c: T::V) -> bool {
    forall|v: T::V|
        #[trigger] category_count(x, memb, k, j, v, x.len() as int) <= category_count(
            x,
            memb,
            k,
            j,
            c,
            x.len() as int,
        )
}

/// Sum over the first `n` observations of the dissimilarity to the centroid of
/// the cluster each belongs to.
pub open spec fn assignment_cost<T: View>(
    x: Seq<Seq<T>>,
    centroids: Seq<Seq<T>>,
    memb: Seq<usize>,
    n: int,
) -> nat
    decreases n,
{
    if n <= 0 {
        0
    } else {
        assignment_cost(x, centroids, memb, n - 1) + dissimilarity(
            x[n - 1],
            centroids[memb[n - 1] as int],
        )
    }
}

/// The K-Modes cost `P(W, Q)` of observations `x` assigned by `memb` to `centroids`
/// (observations without a membership entry do not count).
pub open spec fn total_cost<T: View>(
    x: Seq<Seq<T>>,
    centroids: Seq<Seq<T>>,
    memb: Seq<usize>,
) -> nat {
    assignment_cost(x, centroids, memb, if x.len() <= memb.len() { x.len() as int } else { memb.len() as int })
}

/// Category `v` occurs in column `j` of `x`.
pub open spec fn observed_in_column<T: View>(x: Seq<Seq<T>>, j: int, v: T::V) -> bool {
    exists|i: int| 0 <= i < x.len() && #[trigger] x[i][j]@ == v
}

/// Every value of every mode occurs in its column of `x`.
pub open spec fn modes_observed<T: View>(x: Seq<Seq<T>>, modes: Seq<Seq<T>>) -> bool {
    forall|l: int, j: int|
        0 <= l < modes.len() && 0 <= j < modes[l].len() ==> observed_in_column(x, j, #[trigger] modes[l][j]@)
}

/// Every row of `m` has `ncols` values.
pub open spec fn has_width<T>(m: Seq<Seq<T>>, ncols: int) -> bool {
    forall|i: int| 0 <= i < m.len() ==> #[trigger] m[i].len() == ncols
}

/// A finished clustering of `x`: `memb` assigns every observation to one of the
/// `modes`, every mode holds in each attribute a most frequent category of its
/// cluster, and `cost` is the total dissimilarity of the observations to the
/// modes of their clusters.
pub open spec fn is_clustering<T: View>(
    x: Seq<Seq<T>>,
    modes: Seq<Seq<T>>,
    memb: Seq<usize>,
    cost: nat,
) -> bool {
    &&& memb.len() == x.len()
    &&& forall|i: int| 0 <= i < memb.len() ==> #[trigger] memb[i] < modes.len()
    &&& forall|k: int, j: int|
        0 <= k < modes.len() && 0 <= j < modes[k].len() ==> is_mode(x, memb, k, j, #[trigger] modes[k][j]@)
    &&& cost == total_cost(x, modes, memb)
}

// ---------------------------------------------------------------------------
// Lemmas
// ---------------------------------------------------------------------------

pub proof fn lemma_mismatches_bound<T: View>(a: Seq<T>, b: Seq<T>, n: int)
    requires
        0 <= n,
    ensures
        mismatches(a, b, n) <= n,
    decreases n,
{
    if n > 0 {
        lemma_mismatches_bound(a, b, n - 1);
    }
}

pub proof fn lemma_dissimilarity_bound<T: View>(a: Seq<T>, b: Seq<T>)
    ensures
        dissimilarity(a, b) <= a.len(),
        dissimilarity(a, b) <= b.len(),
{
    let n = if a.len() <= b.len() { a.len() as int } else { b.len() as int };
    lemma_mismatches_bound(a, b, n);
}

pub proof fn lemma_category_count_bound<T: View>(
    x: Seq<Seq<T>>,
    memb: Seq<usize>,
    k: int,
    j: int,
    v: T::V,
    n: int,
)
    requires
        0 <= n,
    ensures
        category_count(x, memb, k, j, v, n) <= cluster_size(memb, k, n),
        cluster_size(memb, k, n) <= n,
    decreases n,
{
    if n > 0 {
        lemma_category_count_bound(x, memb, k, j, v, n - 1);
    }
}

/// Changing the entries of `memb` at or after position `n` changes no count over the first `n`.
pub proof fn lemma_counts_frame<T: View>(
    x: Seq<Seq<T>>,
    m1: Seq<usize>,
    m2: Seq<usize>,
    k: int,
    j: int,
    v: T::V,
    n: int,
)
    requires
        forall|i: int| 0 <= i < n ==> m1[i] == m2[i],
    ensures
        category_count(x, m1, k, j, v, n) == category_count(x, m2, k, j, v, n),
        cluster_size(m1, k, n) == cluster_size(m2, k, n),
    decreases n,
{
    if n > 0 {
        lemma_counts_frame(x, m1, m2, k, j, v, n - 1);
    }
}

/// Moving observation `p` to cluster `t` changes the counts of its old and new cluster by one.
pub proof fn lemma_counts_update<T: View>(
    x: Seq<Seq<T>>,
    memb: Seq<usize>,
    p: int,
    t: usize,
    k: int,
    j: int,
    v: T::V,
    n: int,
)
    requires
        0 <= p < n,
        n <= memb.len(),
    ensures
        category_count(x, memb.update(p, t), k, j, v, n) + (if memb[p] == k && x[p][j]@ == v {
            1nat
        } else {
            0nat
        }) == category_count(x, memb, k, j, v, n) + (if t == k && x[p][j]@ == v {
            1nat
        } else {
            0nat
        }),
        cluster_size(memb.update(p, t), k, n) + (if memb[p] == k { 1nat } else { 0nat })
            == cluster_size(memb, k, n) + (if t == k { 1nat } else { 0nat }),
    decreases n,
{
    if n - 1 == p {
        lemma_counts_frame(x, memb.update(p, t), memb, k, j, v, n - 1);
    } else {
        lemma_counts_update(x, memb, p, t, k, j, v, n - 1);
    }
}

/// An observation is counted in its own cluster.
pub proof fn lemma_member_counted<T: View>(
    x: Seq<Seq<T>>,
    memb: Seq<usize>,
    p: int,
    j: int,
    n: int,
)
    requires
        0 <= p < n,
    ensures
        category_count(x, memb, memb[p] as int, j, x[p][j]@, n) >= 1,
        cluster_size(memb, memb[p] as int, n) >= 1,
    decreases n,
{
    if n - 1 != p {
        lemma_member_counted(x, memb, p, j, n - 1);
    }
}

/// A cluster that `p` does not belong to has at most `n - 1` members.
pub proof fn lemma_non_member_bound(memb: Seq<usize>, p: int, k: int, n: int)
    requires
        0 <= p < n,
        memb[p] != k,
    ensures
        cluster_size(memb, k, n) <= n - 1,
    decreases n,
{
    if n - 1 != p {
        lemma_non_member_bound(memb, p, k, n - 1);
    } else {
        let x: Seq<Seq<u8>> = Seq::empty();
        lemma_category_count_bound(x, memb, k, 0, 0u8, n - 1);
    }
}

/// Counts of an empty cluster are zero.
pub proof fn lemma_empty_cluster_counts<T: View>(
    x: Seq<Seq<T>>,
    memb: Seq<usize>,
    k: int,
    j: int,
    v: T::V,
    n: int,
)
    requires
        0 <= n,
        cluster_size(memb, k, n) == 0,
    ensures
        category_count(x, memb, k, j, v, n) == 0,
{
    lemma_category_count_bound(x, memb, k, j, v, n);
}

/// The cost over `n` observations is at most `n * ncols` when every observation has `ncols` values.
pub proof fn lemma_assignment_cost_bound<T: View>(
    x: Seq<Seq<T>>,
    centroids: Seq<Seq<T>>,
    memb: Seq<usize>,
    n: int,
    ncols: int,
)
    requires
        0 <= n <= x.len(),
        0 <= ncols,
        forall|i: int| 0 <= i < n ==> #[trigger] x[i].len() == ncols,
    ensures
        assignment_cost(x, centroids, memb, n) <= n * ncols,
    decreases n,
{
    if n > 0 {
        lemma_assignment_cost_bound(x, centroids, memb, n - 1, ncols);
        lemma_dissimilarity_bound(x[n - 1], centroids[memb[n - 1] as int]);
        assert((n - 1) * ncols + ncols == n * ncols) by (nonlinear_arith);
    }
}

/// The cost over a prefix never exceeds the cost over a longer prefix.
pub proof fn lemma_assignment_cost_monotone<T: View>(
    x: Seq<Seq<T>>,
    centroids: Seq<Seq<T>>,
    memb: Seq<usize>,
    m: int,
    n: int,
)
    requires
        0 <= m <= n,
    ensures
        assignment_cost(x, centroids, memb, m) <= assignment_cost(x, centroids, memb, n),
    decreases n - m,
{
    if m < n {
        lemma_assignment_cost_monotone(x, centroids, memb, m, n - 1);
    }
}


/// A positive count of category `v` in cluster `k` has a witness: an
/// observation of the cluster with that category.
pub proof fn lemma_count_witness<T: View>(
    x: Seq<Seq<T>>,
    memb: Seq<usize>,
    k: int,
    j: int,
    v: T::V,
    n: int,
) -> (i: int)
    requires
        category_count(x, memb, k, j, v, n) >= 1,
    ensures
        0 <= i < n,
        memb[i] == k,
        x[i][j]@ == v,
    decreases n,
{
    if n <= 0 {
        0
    } else if memb[n - 1] == k && x[n - 1][j]@ == v {
        n - 1
    } else {
        lemma_count_witness(x, memb, k, j, v, n - 1)
    }
}

/// Two vectors that agree in their first position differ in at most `n - 1`
/// of their first `n` positions.
pub proof fn lemma_mismatches_first_agrees<T: View>(a: Seq<T>, b: Seq<T>, n: int)
    requires
        1 <= n,
        a[0]@ == b[0]@,
    ensures
        mismatches(a, b, n) <= n - 1,
    decreases n,
{
    if n > 1 {
        lemma_mismatches_first_agrees(a, b, n - 1);
    } else {
        assert(mismatches(a, b, 0) == 0);
    }
}

/// When observation `p` is at dissimilarity at most `ncols - 1` from its
/// centroid, the cost over `n` observations is at most `n * ncols - 1`.
pub proof fn lemma_assignment_cost_strict<T: View>(
    x: Seq<Seq<T>>,
    centroids: Seq<Seq<T>>,
    memb: Seq<usize>,
    p: int,
    n: int,
    ncols: int,
)
    requires
        0 <= p < n <= x.len(),
        0 <= ncols,
        forall|i: int| 0 <= i < n ==> #[trigger] x[i].len() == ncols,
        dissimilarity(x[p], centroids[memb[p] as int]) + 1 <= ncols,
    ensures
        assignment_cost(x, centroids, memb, n) + 1 <= n * ncols,
    decreases n,
{
    lemma_dissimilarity_bound(x[n - 1], centroids[memb[n - 1] as int]);
    if n - 1 == p {
        lemma_assignment_cost_bound(x, centroids, memb, n - 1, ncols);
    } else {
        lemma_assignment_cost_strict(x, centroids, memb, p, n - 1, ncols);
    }
    assert((n - 1) * ncols + ncols == n * ncols) by (nonlinear_arith);
}

/// The cost of a clustering of `N` observations with `M` attributes is at most
/// `N * M`, and below it when there are observations and attributes: every mode
/// agrees with at least one member of its cluster.
pub proof fn lemma_clustering_cost_bound<T: View>(
    x: Seq<Seq<T>>,
    modes: Seq<Seq<T>>,
    memb: Seq<usize>,
    cost: nat,
    ncols: int,
)
    requires
        is_clustering(x, modes, memb, cost),
        0 <= ncols,
        has_width(x, ncols),
        has_width(modes, ncols),
    ensures
        cost <= x.len() * ncols,
        x.len() >= 1 && ncols >= 1 ==> cost + 1 <= x.len() * ncols,
{
    let n = x.len() as int;
    lemma_assignment_cost_bound(x, modes, memb, n, ncols);
    if n >= 1 && ncols >= 1 {
        let k = memb[0] as int;
        lemma_member_counted(x, memb, 0, 0, n);
        assert(modes[k].len() == ncols);
        assert(is_mode(x, memb, k, 0, modes[k][0]@));
        assert(category_count(x, memb, k, 0, x[0][0]@, n) <= category_count(x, memb, k, 0, modes[k][0]@, n));
        let i = lemma_count_witness(x, memb, k, 0, modes[k][0]@, n);
        assert(x[i].len() == ncols);
        lemma_mismatches_first_agrees(x[i], modes[k], ncols);
        lemma_assignment_cost_strict(x, modes, memb, i, n, ncols);
    }
}


/// A vector is at dissimilarity 0 from itself.
pub proof fn lemma_dissimilarity_reflexive<T: View>(a: Seq<T>)
    ensures
        dissimilarity(a, a) == 0,
{
    lemma_mismatches_reflexive(a, a.len() as int);
}

proof fn lemma_mismatches_reflexive<T: View>(a: Seq<T>, n: int)
    ensures
        mismatches(a, a, n) == 0,
    decreases n,
{
    if n > 0 {
        lemma_mismatches_reflexive(a, n - 1);
    }
}

/// Dissimilarity does not depend on the order of its arguments.
pub proof fn lemma_dissimilarity_symmetric<T: View>(a: Seq<T>, b: Seq<T>)
    ensures
        dissimilarity(a, b) == dissimilarity(b, a),
{
    let n = if a.len() <= b.len() { a.len() as int } else { b.len() as int };
    lemma_mismatches_symmetric(a, b, n);
}

proof fn lemma_mismatches_symmetric<T: View>(a: Seq<T>, b: Seq<T>, n: int)
    ensures
        mismatches(a, b, n) == mismatches(b, a, n),
    decreases n,
{
    if n > 0 {
        lemma_mismatches_symmetric(a, b, n - 1);
    }
}

/// Dissimilarity is 0 exactly when the two vectors hold the same categories
/// over their common length.
pub proof fn lemma_dissimilarity_zero<T: View>(a: Seq<T>, b: Seq<T>)
    ensures
        dissimilarity(a, b) == 0 <==> forall|j: int|
            0 <= j < a.len() && j < b.len() ==> #[trigger] a[j]@ == b[j]@,
{
    let n = if a.len() <= b.len() { a.len() as int } else { b.len() as int };
    lemma_mismatches_zero(a, b, n);
}

proof fn lemma_mismatches_zero<T: View>(a: Seq<T>, b: Seq<T>, n: int)
    requires
        0 <= n,
    ensures
        mismatches(a, b, n) == 0 <==> forall|j: int| 0 <= j < n ==> #[trigger] a[j]@ == b[j]@,
    decreases n,
{
    if n > 0 {
        lemma_mismatches_zero(a, b, n - 1);
        if mismatches(a, b, n) == 0 {
            assert forall|j: int| 0 <= j < n implies #[trigger] a[j]@ == b[j]@ by {
                if j < n - 1 {
                    assert(a[j]@ == b[j]@);
                }
            }
        }
    }
}

/// Dissimilarity satisfies the triangle inequality on vectors of one length:
/// simple matching dissimilarity is a metric.
pub proof fn lemma_dissimilarity_triangle<T: View>(a: Seq<T>, b: Seq<T>, c: Seq<T>)
    requires
        a.len() == b.len(),
        b.len() == c.len(),
    ensures
        dissimilarity(a, c) <= dissimilarity(a, b) + dissimilarity(b, c),
{
    lemma_mismatches_triangle(a, b, c, a.len() as int);
}

proof fn lemma_mismatches_triangle<T: View>(a: Seq<T>, b: Seq<T>, c: Seq<T>, n: int)
    ensures
        mismatches(a, c, n) <= mismatches(a, b, n) + mismatches(b, c, n),
    decreases n,
{
    if n > 0 {
        lemma_mismatches_triangle(a, b, c, n - 1);
    }
}

/// The nearest-mode index is unique: two scans of the same centroids for the
/// same observation answer the same index.
pub proof fn lemma_nearest_unique<T: View>(centroids: Seq<Seq<T>>, obs: Seq<T>, k1: int, k2: int)
    requires
        is_nearest(centroids, obs, k1),
        is_nearest(centroids, obs, k2),
    ensures
        k1 == k2,
{
    if exists|c: int| 0 <= c < centroids.len() && #[trigger] dissimilarity(centroids[c], obs) < usize::MAX {
        if k1 < k2 {
            assert(dissimilarity(centroids[k2], obs) < dissimilarity(centroids[k1], obs));
            assert(dissimilarity(centroids[k2], obs) <= dissimilarity(centroids[k1], obs));
        } else if k2 < k1 {
            assert(dissimilarity(centroids[k1], obs) < dissimilarity(centroids[k2], obs));
        }
    }
}


/// The cost over `n` observations is 0 when each of them agrees with its centroid.
proof fn lemma_assignment_cost_zero<T: View>(
    x: Seq<Seq<T>>,
    centroids: Seq<Seq<T>>,
    memb: Seq<usize>,
    n: int,
)
    requires
        forall|i: int| 0 <= i < n ==> #[trigger] dissimilarity(x[i], centroids[memb[i] as int]) == 0,
    ensures
        assignment_cost(x, centroids, memb, n) == 0,
    decreases n,
{
    if n > 0 {
        lemma_assignment_cost_zero(x, centroids, memb, n - 1);
        assert(dissimilarity(x[n - 1], centroids[memb[n - 1] as int]) == 0);
    }
}

/// A clustering of observations that all hold the same categories costs 0:
/// every mode repeats the categories of its members.
pub proof fn lemma_identical_observations_cost_zero<T: View>(
    x: Seq<Seq<T>>,
    modes: Seq<Seq<T>>,
    memb: Seq<usize>,
    cost: nat,
    ncols: int,
)
    requires
        is_clustering(x, modes, memb, cost),
        has_width(x, ncols),
        has_width(modes, ncols),
        forall|i: int, j: int| 0 <= i < x.len() && 0 <= j < ncols ==> #[trigger] x[i][j]@ == x[0][j]@,
    ensures
        cost == 0,
{
    let n = x.len() as int;
    assert forall|i: int| 0 <= i < n implies #[trigger] dissimilarity(x[i], modes[memb[i] as int]) == 0 by {
        let k = memb[i] as int;
        assert(x[i].len() == ncols && modes[k].len() == ncols);
        assert forall|j: int| 0 <= j < x[i].len() && j < modes[k].len() implies #[trigger] x[i][j]@ == modes[k][j]@ by {
            lemma_member_counted(x, memb, i, j, n);
            assert(is_mode(x, memb, k, j, modes[k][j]@));
            assert(category_count(x, memb, k, j, x[i][j]@, n) <= category_count(x, memb, k, j, modes[k][j]@, n));
            let w = lemma_count_witness(x, memb, k, j, modes[k][j]@, n);
            assert(x[w][j]@ == x[0][j]@);
            assert(x[i][j]@ == x[0][j]@);
        }
        lemma_dissimilarity_zero(x[i], modes[k]);
    }
    lemma_assignment_cost_zero(x, modes, memb, n);
}


/// A cluster of positive size has a member.
pub proof fn lemma_size_witness(memb: Seq<usize>, k: int, n: int) -> (i: int)
    requires
        cluster_size(memb, k, n) >= 1,
    ensures
        0 <= i < n,
        memb[i] == k,
    decreases n,
{
    if n <= 0 {
        0
    } else if memb[n - 1] == k {
        n - 1
    } else {
        lemma_size_witness(memb, k, n - 1)
    }
}

} // verus!
