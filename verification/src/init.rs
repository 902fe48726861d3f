//! Initial centroids for K-Modes: Cao, Huang, random and precomputed.

use vstd::prelude::*;

use crate::algorithm::matching_dissim;
use crate::element::EquivalenceTarget;
use crate::freq::FrequencyTable;
use crate::matrix::Matrix;
use crate::model::{dissimilarity, lemma_dissimilarity_bound};
use crate::rng::RandomSource;

verus! {

/// Specifies the centroid initialization strategy for K-Modes.
#[derive(Debug, PartialEq, Eq)]
#[non_exhaustive]
pub enum KModesInit<T> {
    /// Density and dissimilarity-based initialization (Cao et al. [2009]). Default.
    Cao,
    /// Density-based initialization (Huang [1997, 1998]).
    Huang,
    /// Randomly selects `n_clusters` unique observations from the dataset.
    Random,
    /// Precomputed initial centroids with shape `(n_clusters, n_features)`.
    Precomputed(Matrix<T>),
}

/// Index `i` occurs in `s`.
spec fn has_index(s: Seq<usize>, i: int) -> bool {
    s.contains(i as usize)
}

/// Number of indices below `n` that occur in `s`.
spec fn covered(s: Seq<usize>, n: int) -> nat
    decreases n,
{
    if n <= 0 {
        0
    } else {
        covered(s, n - 1) + (if s.contains((n - 1) as usize) { 1nat } else { 0nat })
    }
}

proof fn lemma_covered_push(s: Seq<usize>, v: usize, n: int)
    requires
        0 <= n <= usize::MAX + 1,
    ensures
        covered(s.push(v), n) == covered(s, n) + (if v < n && !s.contains(v) { 1nat } else { 0nat }),
    decreases n,
{
    if n > 0 {
        lemma_covered_push(s, v, n - 1);
        let i = (n - 1) as usize;
        let t = s.push(v);
        if s.contains(i) {
            let k = choose|k: int| 0 <= k < s.len() && s[k] == i;
            assert(t[k] == i);
        }
        if i == v {
            assert(t[s.len() as int] == v);
        }
        if t.contains(i) && !s.contains(i) {
            let k = choose|k: int| 0 <= k < t.len() && t[k] == i;
            if k < s.len() {
                assert(s[k] == i);
            }
        }
    }
}

proof fn lemma_covered_bound(s: Seq<usize>, n: int)
    requires
        0 <= n <= usize::MAX + 1,
    ensures
        covered(s, n) <= s.len(),
    decreases s.len(),
{
    if s.len() == 0 {
        lemma_covered_empty(s, n);
    } else {
        let p = s.drop_last();
        lemma_covered_bound(p, n);
        assert(p.push(s.last()) =~= s);
        lemma_covered_push(p, s.last(), n);
    }
}

proof fn lemma_covered_empty(s: Seq<usize>, n: int)
    requires
        s.len() == 0,
    ensures
        covered(s, n) == 0,
    decreases n,
{
    if n > 0 {
        lemma_covered_empty(s, n - 1);
    }
}

proof fn lemma_covered_all(s: Seq<usize>, n: int)
    requires
        0 <= n <= usize::MAX + 1,
        forall|i: int| 0 <= i < n ==> #[trigger] has_index(s, i),
    ensures
        covered(s, n) == n,
    decreases n,
{
    if n > 0 {
        assert(has_index(s, n - 1));
        lemma_covered_all(s, n - 1);
    }
}

/// A sequence of fewer than `n` indices misses some index below `n`.
proof fn lemma_missing_index(s: Seq<usize>, n: int) -> (i: int)
    requires
        s.len() < n <= usize::MAX + 1,
    ensures
        0 <= i < n,
        !s.contains(i as usize),
{
    lemma_covered_bound(s, n);
    if forall|i: int| 0 <= i < n ==> #[trigger] has_index(s, i) {
        lemma_covered_all(s, n);
    }
    choose|i: int| 0 <= i < n && !#[trigger] has_index(s, i)
}

/// Cao's score of observation `i` against the first `n` chosen observations
/// is its least dissimilarity to them multiplied by its density: at most
/// `d(x_i, x_c) * density(x_i)` for every chosen `c`, and equal to it for one.
pub proof fn lemma_cao_score_is_least_weighted_dissimilarity<T: View>(
    x: Seq<Seq<T>>,
    m: int,
    sel: Seq<usize>,
    i: int,
    n: int,
)
    requires
        1 <= n <= sel.len(),
    ensures
        forall|t: int|
            0 <= t < n ==> cao_score(x, m, sel, i, n) <= #[trigger] dissimilarity(x[i], x[sel[t] as int]) * density(
                x,
                i,
                m,
            ),
        exists|t: int|
            0 <= t < n && cao_score(x, m, sel, i, n) == #[trigger] dissimilarity(x[i], x[sel[t] as int]) * density(
                x,
                i,
                m,
            ),
    decreases n,
{
    let last = dissimilarity(x[i], x[sel[n - 1] as int]) * density(x, i, m);
    if n == 1 {
        assert(cao_score(x, m, sel, i, n) == last);
        assert forall|t: int| 0 <= t < n implies cao_score(x, m, sel, i, n) <= #[trigger] dissimilarity(
            x[i],
            x[sel[t] as int],
        ) * density(x, i, m) by {
            assert(t == 0);
        }
    } else {
        lemma_cao_score_is_least_weighted_dissimilarity(x, m, sel, i, n - 1);
        let before = cao_score(x, m, sel, i, n - 1);
        assert(cao_score(x, m, sel, i, n) == if last < before { last } else { before });
        assert forall|t: int| 0 <= t < n implies cao_score(x, m, sel, i, n) <= #[trigger] dissimilarity(
            x[i],
            x[sel[t] as int],
        ) * density(x, i, m) by {
            if t < n - 1 {
                assert(before <= dissimilarity(x[i], x[sel[t] as int]) * density(x, i, m));
            }
        }
        if last < before {
            assert(cao_score(x, m, sel, i, n) == dissimilarity(x[i], x[sel[n - 1] as int]) * density(x, i, m));
        } else {
            let t = choose|t: int|
                0 <= t < n - 1 && before == #[trigger] dissimilarity(x[i], x[sel[t] as int]) * density(x, i, m);
            assert(cao_score(x, m, sel, i, n) == dissimilarity(x[i], x[sel[t] as int]) * density(x, i, m));
        }
    }
}

/// Some observation `c` of `taken` has `d(x_i, x_c) * density(x_i)` at most
/// `d(x_b, x_u) * density(x_b)` for every `u` of `taken`: the least weighted
/// dissimilarity of `i` to `taken` is at most that of `b`.
pub open spec fn weighted_at_most<T: View>(x: Seq<Seq<T>>, m: int, taken: Seq<usize>, i: int, b: int) -> bool {
    exists|t: int|
        0 <= t < taken.len() && forall|u: int|
            0 <= u < taken.len() ==> #[trigger] dissimilarity(x[i], x[taken[t] as int]) * density(x, i, m)
                <= #[trigger] dissimilarity(x[b], x[taken[u] as int]) * density(x, b, m)
}

/// Cao's next centroid, after at least one chosen observation and while some
/// observation is not taken, is an observation not taken whose least
/// dissimilarity to the chosen ones, times its density, is largest: for every
/// observation `i` not taken there is a chosen `c` with
/// `d(x_i, x_c) * density(x_i) <= d(x_b, x_u) * density(x_b)` for every chosen `u`.
pub proof fn lemma_cao_next_maximizes_weighted_dissimilarity<T: View>(
    x: Seq<Seq<T>>,
    m: int,
    taken: Seq<usize>,
    b: int,
)
    requires
        is_cao_next(x, m, taken, b),
        1 <= taken.len() < x.len() <= usize::MAX,
    ensures
        0 <= b < x.len(),
        !taken.contains(b as usize),
        forall|i: int|
            0 <= i < x.len() && !taken.contains(i as usize) ==> #[trigger] weighted_at_most(x, m, taken, i, b),
{
    let n = taken.len() as int;
    let miss = lemma_missing_index(taken, x.len() as int);
    assert(!taken.contains(miss as usize));
    lemma_cao_score_is_least_weighted_dissimilarity(x, m, taken, b, n);
    assert forall|i: int|
        0 <= i < x.len() && !taken.contains(i as usize) implies #[trigger] weighted_at_most(x, m, taken, i, b) by {
        lemma_cao_score_is_least_weighted_dissimilarity(x, m, taken, i, n);
        assert(cao_score(x, m, taken, i, n) <= cao_score(x, m, taken, b, n));
        let t = choose|t: int|
            0 <= t < n && cao_score(x, m, taken, i, n) == #[trigger] dissimilarity(x[i], x[taken[t] as int]) * density(
                x,
                i,
                m,
            );
        assert forall|u: int| 0 <= u < taken.len() implies #[trigger] dissimilarity(x[i], x[taken[t] as int]) * density(
            x,
            i,
            m,
        ) <= #[trigger] dissimilarity(x[b], x[taken[u] as int]) * density(x, b, m) by {
            assert(cao_score(x, m, taken, b, n) <= dissimilarity(x[b], x[taken[u] as int]) * density(x, b, m));
        }
        assert(0 <= t < taken.len());
    }
}

/// Cao's initialization picks distinct observations when there are at least
/// as many observations as centroids.
pub proof fn lemma_cao_selection_distinct<T: View>(x: Seq<Seq<T>>, m: int, sel: Seq<usize>)
    requires
        is_cao_selection(x, m, sel),
        sel.len() <= x.len() <= usize::MAX,
    ensures
        distinct(sel),
{
    assert forall|a: int, b: int| 0 <= a < sel.len() && 0 <= b < sel.len() && a != b implies sel[a] != sel[b] by {
        let (lo, hi) = if a < b { (a, b) } else { (b, a) };
        let taken = sel.take(hi);
        let i = lemma_missing_index(taken, x.len() as int);
        assert(!taken.contains(i as usize));
        assert(is_cao_next(x, m, taken, sel[hi] as int));
        assert(taken[lo] == sel[lo]);
        assert(!taken.contains(sel[hi]));
    }
}

/// Huang's method picks distinct observations when there are at least as many
/// observations as tentative centroids (and no observation is so long that its
/// dissimilarity could reach `usize::MAX`).
pub proof fn lemma_huang_selection_distinct<T: View>(x: Seq<Seq<T>>, tentative: Seq<Seq<T>>, sel: Seq<usize>)
    requires
        is_huang_selection(x, tentative, sel),
        sel.len() <= x.len() <= usize::MAX,
        forall|i: int| 0 <= i < x.len() ==> #[trigger] x[i].len() < usize::MAX,
    ensures
        distinct(sel),
{
    assert forall|a: int, b: int| 0 <= a < sel.len() && 0 <= b < sel.len() && a != b implies sel[a] != sel[b] by {
        let (lo, hi) = if a < b { (a, b) } else { (b, a) };
        let taken = sel.take(hi);
        let i = lemma_missing_index(taken, x.len() as int);
        lemma_dissimilarity_bound(x[i], tentative[hi]);
        assert(dissimilarity(x[i], tentative[hi]) < usize::MAX);
        assert(is_huang_choice(x, taken, tentative[hi], sel[hi] as int));
        assert(taken[lo] == sel[lo]);
        assert(!taken.contains(sel[hi]));
    }
}

impl<T: View> KModesInit<T> {
    /// `self` is a copy of `original`: the same method, and for precomputed
    /// centroids a matrix of the same shape and categories.
    pub open spec fn is_copy_of(&self, original: &KModesInit<T>) -> bool {
        match (*original, *self) {
            (KModesInit::Precomputed(a), KModesInit::Precomputed(b)) => {
                &&& b.width() == a.width()
                &&& b@.len() == a@.len()
                &&& forall|i: int, j: int|
                    0 <= i < a@.len() && 0 <= j < a@[i].len() ==> #[trigger] b@[i][j]@ == a@[i][j]@
            },
            (KModesInit::Precomputed(_), _) => false,
            _ => *self == *original,
        }
    }
}

impl<T: EquivalenceTarget> Clone for KModesInit<T> {
    /// A copy of the method (precomputed centroids are copied value by value).
    fn clone(&self) -> (r: Self)
        ensures
            r.is_copy_of(self),
    {
        match self {
            KModesInit::Cao => KModesInit::Cao,
            KModesInit::Huang => KModesInit::Huang,
            KModesInit::Random => KModesInit::Random,
            KModesInit::Precomputed(c) => KModesInit::Precomputed(c.duplicate()),
        }
    }
}

impl<T> Default for KModesInit<T> {
    fn default() -> (r: Self)
        ensures
            r is Cao,
    {
        KModesInit::Cao
    }
}

/// `m` holds, in order, the rows of `x` at the indices `sel` (category by category).
pub open spec fn rows_of<T: View>(m: Seq<Seq<T>>, x: Seq<Seq<T>>, sel: Seq<usize>) -> bool {
    &&& m.len() == sel.len()
    &&& forall|t: int| 0 <= t < sel.len() ==> #[trigger] sel[t] < x.len()
    &&& forall|t: int| 0 <= t < sel.len() ==> #[trigger] m[t].len() == x[sel[t] as int].len()
    &&& forall|t: int, j: int|
        0 <= t < sel.len() && 0 <= j < m[t].len() ==> #[trigger] m[t][j]@ == x[sel[t] as int][j]@
}

/// No index occurs twice in `sel`.
pub open spec fn distinct(sel: Seq<usize>) -> bool {
    forall|a: int, b: int| 0 <= a < sel.len() && 0 <= b < sel.len() && a != b ==> sel[a] != sel[b]
}

/// Builds the matrix of the rows of `x` at the indices `sel`.
fn rows_at<T: EquivalenceTarget>(x: &Matrix<T>, sel: &Vec<usize>) -> (r: Matrix<T>)
    requires
        sel@.len() <= x@.len(),
        forall|t: int| 0 <= t < sel@.len() ==> #[trigger] sel@[t] < x@.len(),
    ensures
        r.width() == x.width(),
        rows_of(r@, x@, sel@),
{
    x.assert_wf();
    let m = x.ncols();
    let mut rows: Vec<Vec<T>> = Vec::new();
    for t in 0..sel.len()
        invariant
            x.wf(),
            m == x.width(),
            sel@.len() <= x@.len(),
            forall|a: int| 0 <= a < sel@.len() ==> #[trigger] sel@[a] < x@.len(),
            rows@.len() == t,
            forall|a: int| 0 <= a < t ==> #[trigger] rows@[a]@.len() == m,
            forall|a: int, j: int|
                0 <= a < t && 0 <= j < m ==> #[trigger] rows@[a]@[j]@ == x@[sel@[a] as int][j]@,
    {
        let src = x.row(sel[t]);
        let mut row: Vec<T> = Vec::new();
        for j in 0..m
            invariant
                m == src@.len(),
                row@.len() == j,
                forall|b: int| 0 <= b < j ==> #[trigger] row@[b]@ == src@[b]@,
        {
            row.push(src[j].duplicate());
        }
        rows.push(row);
    }
    proof {
        assert(sel@.len() * (m as int) <= x@.len() * (m as int)) by (nonlinear_arith)
            requires
                sel@.len() <= x@.len(),
        ;
    }
    Matrix::from_rows_of_width(m, rows)
}

/// Random initialization: selects `n_clusters` distinct observations, drawing
/// indices until enough distinct ones have come out. (After `u64::MAX` draws,
/// which does not happen in practice, it takes the first `n_clusters` observations.)
pub(crate) fn random_init<T: EquivalenceTarget, R: RandomSource>(
    x: &Matrix<T>,
    n_clusters: usize,
    rng: &mut R,
) -> (r: Matrix<T>)
    requires
        n_clusters <= x@.len(),
    ensures
        r.width() == x.width(),
        exists|sel: Seq<usize>| sel.len() == n_clusters && distinct(sel) && #[trigger] rows_of(r@, x@, sel),
{
    let n_points = x.nrows();
    let mut selected: Vec<usize> = Vec::new();
    let mut seen: Vec<bool> = Vec::new();
    for i in 0..n_points
        invariant
            seen@.len() == i,
            forall|a: int| 0 <= a < i ==> !#[trigger] seen@[a],
    {
        seen.push(false);
    }
    let mut attempts: u64 = 0;
    while selected.len() < n_clusters && attempts < u64::MAX
        invariant
            n_points == x@.len(),
            n_clusters <= n_points,
            seen@.len() == n_points,
            selected@.len() <= n_clusters,
            distinct(selected@),
            forall|t: int| 0 <= t < selected@.len() ==> #[trigger] selected@[t] < n_points,
            forall|a: int| 0 <= a < n_points ==> (#[trigger] seen@[a] <==> selected@.contains(a as usize)),
        decreases u64::MAX - attempts,
    {
        attempts = attempts + 1;
        let idx = rng.gen_index(n_points);
        if !seen[idx] {
            let ghost prev = selected@;
            seen.set(idx, true);
            selected.push(idx);
            proof {
                assert forall|a: int| 0 <= a < n_points implies (#[trigger] seen@[a] <==> selected@.contains(a as usize)) by {
                    assert(selected@.drop_last() == prev);
                    if a != idx {
                        if selected@.contains(a as usize) {
                            let t = choose|t: int| 0 <= t < selected@.len() && selected@[t] == a as usize;
                            assert(t != selected@.len() - 1);
                            assert(prev[t] == a as usize);
                            assert(prev.contains(a as usize));
                        }
                        if prev.contains(a as usize) {
                            let t = choose|t: int| 0 <= t < prev.len() && prev[t] == a as usize;
                            assert(selected@[t] == a as usize);
                        }
                    } else {
                        assert(selected@[selected@.len() - 1] == idx);
                    }
                }
                assert forall|a: int, b: int|
                    0 <= a < selected@.len() && 0 <= b < selected@.len() && a != b implies selected@[a] != selected@[b] by {
                    if a == selected@.len() - 1 || b == selected@.len() - 1 {
                        let o = if a == selected@.len() - 1 { b } else { a };
                        assert(selected@.drop_last() == prev);
                        assert(prev[o] == selected@[o]);
                    }
                }
            }
        }
    }
    if selected.len() < n_clusters {
        selected = Vec::new();
        for i in 0..n_clusters
            invariant
                n_clusters <= n_points,
                selected@.len() == i,
                forall|t: int| 0 <= t < i ==> #[trigger] selected@[t] == t,
        {
            selected.push(i);
        }
    }
    rows_at(x, &selected)
}

/// `b` is the observation that Huang's method takes for the tentative centroid
/// `row` when the observations in `taken` are already taken: the first
/// observation not taken at minimal dissimilarity to `row` (distances of
/// `usize::MAX` never win, and when nothing wins the answer is `0`).
pub open spec fn is_huang_choice<T: View>(x: Seq<Seq<T>>, taken: Seq<usize>, row: Seq<T>, b: int) -> bool {
    if exists|i: int|
        0 <= i < x.len() && !taken.contains(i as usize) && #[trigger] dissimilarity(x[i], row)
            < usize::MAX {
        &&& 0 <= b < x.len()
        &&& !taken.contains(b as usize)
        &&& forall|i: int|
            0 <= i < x.len() && !taken.contains(i as usize) ==> dissimilarity(x[b], row)
                <= #[trigger] dissimilarity(x[i], row)
        &&& forall|i: int|
            0 <= i < b && !taken.contains(i as usize) ==> dissimilarity(x[b], row)
                < #[trigger] dissimilarity(x[i], row)
    } else {
        b == 0
    }
}

/// `sel` is what Huang's method picks for the tentative centroids, one after the other.
pub open spec fn is_huang_selection<T: View>(
    x: Seq<Seq<T>>,
    tentative: Seq<Seq<T>>,
    sel: Seq<usize>,
) -> bool {
    &&& sel.len() == tentative.len()
    &&& forall|t: int|
        0 <= t < sel.len() ==> is_huang_choice(x, sel.take(t), tentative[t], #[trigger] sel[t] as int)
}

/// Huang's replacement step: maps each tentative centroid, in order, to the
/// closest observation not taken yet (the first one among equally close ones).
pub fn huang_select<T: EquivalenceTarget>(x: &Matrix<T>, tentative: &Matrix<T>) -> (sel: Vec<usize>)
    ensures
        is_huang_selection(x@, tentative@, sel@),
        forall|t: int| 0 <= t < sel@.len() ==> #[trigger] sel@[t] < x@.len() || (sel@[t] == 0 && x@.len() == 0),
{
    let n_points = x.nrows();
    let n_clusters = tentative.nrows();
    let mut taken: Vec<bool> = Vec::new();
    for i in 0..n_points
        invariant
            taken@.len() == i,
            forall|a: int| 0 <= a < i ==> !#[trigger] taken@[a],
    {
        taken.push(false);
    }
    let mut sel: Vec<usize> = Vec::new();
    for ik in 0..n_clusters
        invariant
            n_points == x@.len(),
            n_clusters == tentative@.len(),
            taken@.len() == n_points,
            sel@.len() == ik,
            forall|a: int| 0 <= a < n_points ==> (#[trigger] taken@[a] <==> sel@.contains(a as usize)),
            forall|t: int|
                0 <= t < ik ==> is_huang_choice(x@, sel@.take(t), tentative@[t], #[trigger] sel@[t] as int),
            forall|t: int| 0 <= t < ik ==> #[trigger] sel@[t] < x@.len() || (sel@[t] == 0 && x@.len() == 0),
    {
        let tent_row = tentative.row(ik);
        let mut best_idx: usize = 0;
        let mut min_dist: usize = usize::MAX;
        for ipoint in 0..n_points
            invariant
                n_points == x@.len(),
                taken@.len() == n_points,
                forall|a: int| 0 <= a < n_points ==> (#[trigger] taken@[a] <==> sel@.contains(a as usize)),
                min_dist == usize::MAX ==> best_idx == 0,
                min_dist < usize::MAX ==> best_idx < ipoint && !sel@.contains(best_idx) && min_dist
                    == dissimilarity(x@[best_idx as int], tent_row@),
                forall|i: int|
                    0 <= i < ipoint && !sel@.contains(i as usize) ==> min_dist <= #[trigger] dissimilarity(
                        x@[i],
                        tent_row@,
                    ),
                forall|i: int|
                    0 <= i < best_idx && !sel@.contains(i as usize) ==> min_dist < #[trigger] dissimilarity(
                        x@[i],
                        tent_row@,
                    ),
        {
            if !taken[ipoint] {
                let dist = matching_dissim(x.row(ipoint), tent_row);
                proof { lemma_dissimilarity_bound(x@[ipoint as int], tent_row@); }
                if dist < min_dist {
                    min_dist = dist;
                    best_idx = ipoint;
                }
            }
        }
        let ghost prev = sel@;
        if best_idx < n_points {
            taken.set(best_idx, true);
        }
        sel.push(best_idx);
        proof {
            assert(sel@.take(ik as int) == prev);
            assert(is_huang_choice(x@, prev, tentative@[ik as int], best_idx as int)) by {
                if exists|i: int|
                    0 <= i < x@.len() && !prev.contains(i as usize) && #[trigger] dissimilarity(x@[i], tentative@[ik as int])
                        < usize::MAX {
                    let i = choose|i: int|
                        0 <= i < x@.len() && !prev.contains(i as usize) && #[trigger] dissimilarity(x@[i], tentative@[ik as int])
                            < usize::MAX;
                    assert(min_dist <= dissimilarity(x@[i], tent_row@));
                }
            }
            assert forall|t: int|
                0 <= t < ik + 1 implies is_huang_choice(x@, sel@.take(t), tentative@[t], #[trigger] sel@[t] as int) by {
                if t < ik {
                    assert(sel@.take(t) == prev.take(t));
                    assert(sel@[t] == prev[t]);
                }
            }
            assert forall|a: int| 0 <= a < n_points implies (#[trigger] taken@[a] <==> sel@.contains(a as usize)) by {
                assert(sel@.drop_last() == prev);
                if sel@.contains(a as usize) && a != best_idx {
                    let t = choose|t: int| 0 <= t < sel@.len() && sel@[t] == a as usize;
                    assert(prev[t] == a as usize);
                }
                if prev.contains(a as usize) {
                    let t = choose|t: int| 0 <= t < prev.len() && prev[t] == a as usize;
                    assert(sel@[t] == a as usize);
                }
                if a == best_idx {
                    assert(sel@[sel@.len() - 1] == best_idx);
                }
            }
        }
    }
    sel
}

/// Every row of `tent` has `m` values; value `j` of row `i` is the category of
/// observation `src[i][j]` in column `j`.
pub open spec fn sampled_from_columns<T: View>(
    tent: Seq<Seq<T>>,
    x: Seq<Seq<T>>,
    m: int,
    src: Seq<Seq<int>>,
) -> bool {
    &&& src.len() == tent.len()
    &&& forall|i: int| 0 <= i < tent.len() ==> #[trigger] tent[i].len() == m && src[i].len() == m
    &&& forall|i: int, j: int|
        0 <= i < tent.len() && 0 <= j < m ==> 0 <= #[trigger] src[i][j] < x.len() && tent[i][j]@
            == x[src[i][j]][j]@
}

/// Huang initialization (Huang [1997, 1998]): builds `n_clusters` tentative
/// centroids whose attributes are sampled from the observations' columns, then
/// replaces each by the closest observation not taken yet.
#[verifier::spinoff_prover]
pub(crate) fn init_huang<T: EquivalenceTarget, R: RandomSource>(
    x: &Matrix<T>,
    n_clusters: usize,
    rng: &mut R,
) -> (r: Matrix<T>)
    requires
        n_clusters <= x@.len(),
    ensures
        r.width() == x.width(),
        exists|tent: Seq<Seq<T>>, src: Seq<Seq<int>>, sel: Seq<usize>|
            #![trigger sampled_from_columns(tent, x@, x.width() as int, src), is_huang_selection(x@, tent, sel)]
            tent.len() == n_clusters && sampled_from_columns(tent, x@, x.width() as int, src)
                && is_huang_selection(x@, tent, sel) && rows_of(r@, x@, sel),
{
    x.assert_wf();
    let (n_points, n_attrs) = x.dim();
    let mut rows: Vec<Vec<T>> = Vec::new();
    let ghost mut src: Seq<Seq<int>> = Seq::empty();
    for i in 0..n_clusters
        invariant
            x.wf(),
            n_points == x@.len(),
            n_attrs == x.width(),
            n_clusters <= n_points,
            rows@.len() == i,
            src.len() == i,
            forall|a: int| 0 <= a < i ==> #[trigger] rows@[a]@.len() == n_attrs && src[a].len() == n_attrs,
            forall|a: int, j: int|
                0 <= a < i && 0 <= j < n_attrs ==> 0 <= #[trigger] src[a][j] < n_points && rows@[a]@[j]@
                    == x@[src[a][j]][j]@,
    {
        let mut row: Vec<T> = Vec::new();
        let ghost mut srow: Seq<int> = Seq::empty();
        for j in 0..n_attrs
            invariant
                x.wf(),
                n_points == x@.len(),
                n_attrs == x.width(),
                0 < n_points,
                row@.len() == j,
                srow.len() == j,
                forall|b: int|
                    0 <= b < j ==> 0 <= #[trigger] srow[b] < n_points && row@[b]@ == x@[srow[b]][b]@,
        {
            let p = rng.gen_index(n_points);
            row.push(x.get(p, j).duplicate());
            proof {
                srow = srow.push(p as int);
            }
        }
        let ghost prev_rows = rows@;
        let ghost prev_src = src;
        rows.push(row);
        proof {
            src = src.push(srow);
            assert forall|a: int| 0 <= a < i + 1 implies #[trigger] rows@[a]@.len() == n_attrs && src[a].len() == n_attrs by {
                if a == i {
                    assert(rows@[a] == row);
                    assert(src[a] == srow);
                } else {
                    assert(rows@[a] == prev_rows[a]);
                    assert(src[a] == prev_src[a]);
                }
            }
            assert forall|a: int, j: int|
                0 <= a < i + 1 && 0 <= j < n_attrs implies 0 <= #[trigger] src[a][j] < n_points && rows@[a]@[j]@
                    == x@[src[a][j]][j]@ by {
                if a == i {
                    assert(rows@[a] == row);
                    assert(src[a] == srow);
                }
            }
        }
    }
    proof {
        assert(n_clusters * n_attrs <= n_points * n_attrs) by (nonlinear_arith)
            requires
                n_clusters <= n_points,
        ;
    }
    let tentative = Matrix::from_rows_of_width(n_attrs, rows);
    let sel = huang_select(x, &tentative);
    let r = rows_at(x, &sel);
    proof {
        assert(sampled_from_columns(tentative@, x@, x.width() as int, src)) by {
            assert forall|a: int, j: int|
                0 <= a < tentative@.len() && 0 <= j < x.width() implies 0 <= #[trigger] src[a][j] < x@.len()
                    && tentative@[a][j]@ == x@[src[a][j]][j]@ by {
                assert(tentative@[a] == rows@[a]@);
            }
        }
    }
    r
}

/// Number of observations among the first `n` whose attribute `j` is the category `v`.
pub open spec fn column_count<T: View>(x: Seq<Seq<T>>, j: int, v: T::V, n: int) -> nat
    decreases n,
{
    if n <= 0 {
        0
    } else {
        column_count(x, j, v, n - 1) + (if x[n - 1][j]@ == v { 1nat } else { 0nat })
    }
}

/// The marginal attribute density of observation `i` over its first `m`
/// attributes, scaled by the number of values `N * M`:
/// `sum_j freq_j(x_ij)`, the number of (observation, attribute) pairs that
/// share observation `i`'s category in that attribute.
pub open spec fn density<T: View>(x: Seq<Seq<T>>, i: int, m: int) -> nat
    decreases m,
{
    if m <= 0 {
        0
    } else {
        density(x, i, m - 1) + column_count(x, m - 1, x[i][m - 1]@, x.len() as int)
    }
}

/// Cao's score of observation `i` against the first `n` chosen observations
/// `sel`: the least density-weighted dissimilarity `d(x_i, x_c) * density(x_i)`
/// (defined for `n >= 1`).
pub open spec fn cao_score<T: View>(x: Seq<Seq<T>>, m: int, sel: Seq<usize>, i: int, n: int) -> nat
    decreases n,
{
    let w = dissimilarity(x[i], x[sel[n - 1] as int]) * density(x, i, m);
    if n <= 1 {
        w
    } else {
        let before = cao_score(x, m, sel, i, n - 1);
        if w < before {
            w
        } else {
            before
        }
    }
}

/// `f` is Cao's first centroid: the last observation of largest density.
pub open spec fn is_cao_first<T: View>(x: Seq<Seq<T>>, m: int, f: int) -> bool {
    &&& 0 <= f < x.len()
    &&& forall|i: int| 0 <= i < x.len() ==> #[trigger] density(x, i, m) <= density(x, f, m)
    &&& forall|i: int| f < i < x.len() ==> #[trigger] density(x, i, m) < density(x, f, m)
}

/// `b` is Cao's next centroid after the observations `taken`: the first
/// observation not taken with the largest score (`0` when all are taken).
pub open spec fn is_cao_next<T: View>(x: Seq<Seq<T>>, m: int, taken: Seq<usize>, b: int) -> bool {
    if exists|i: int| 0 <= i < x.len() && !#[trigger] taken.contains(i as usize) {
        &&& 0 <= b < x.len()
        &&& !taken.contains(b as usize)
        &&& forall|i: int|
            0 <= i < x.len() && !taken.contains(i as usize) ==> #[trigger] cao_score(
                x,
                m,
                taken,
                i,
                taken.len() as int,
            ) <= cao_score(x, m, taken, b, taken.len() as int)
        &&& forall|i: int|
            0 <= i < b && !taken.contains(i as usize) ==> #[trigger] cao_score(
                x,
                m,
                taken,
                i,
                taken.len() as int,
            ) < cao_score(x, m, taken, b, taken.len() as int)
    } else {
        b == 0
    }
}

/// `sel` is the sequence of observations that Cao's method picks, in order.
pub open spec fn is_cao_selection<T: View>(x: Seq<Seq<T>>, m: int, sel: Seq<usize>) -> bool {
    &&& (sel.len() > 0 ==> is_cao_first(x, m, sel[0] as int))
    &&& forall|t: int| 1 <= t < sel.len() ==> is_cao_next(x, m, sel.take(t), #[trigger] sel[t] as int)
}

proof fn lemma_column_count_bound<T: View>(x: Seq<Seq<T>>, j: int, v: T::V, n: int)
    requires
        0 <= n,
    ensures
        column_count(x, j, v, n) <= n,
    decreases n,
{
    if n > 0 {
        lemma_column_count_bound(x, j, v, n - 1);
    }
}

proof fn lemma_density_bound<T: View>(x: Seq<Seq<T>>, i: int, m: int)
    requires
        0 <= m,
    ensures
        density(x, i, m) <= m * x.len(),
    decreases m,
{
    if m > 0 {
        lemma_density_bound(x, i, m - 1);
        lemma_column_count_bound(x, m - 1, x[i][m - 1]@, x.len() as int);
        assert((m - 1) * x.len() + x.len() == m * x.len()) by (nonlinear_arith);
    }
}

proof fn lemma_column_count_self<T: View>(x: Seq<Seq<T>>, i: int, j: int, n: int)
    requires
        0 <= i < n,
    ensures
        column_count(x, j, x[i][j]@, n) >= 1,
    decreases n,
{
    if n - 1 != i {
        lemma_column_count_self(x, i, j, n - 1);
    }
}

/// The density of an observation over `m` attributes counts, in each
/// attribute, the observations that share its category, itself included: it
/// is at least `m` and at most `m * N`, and observations with the same
/// categories have the same density.
pub proof fn lemma_density_counts_shared_categories<T: View>(x: Seq<Seq<T>>, i: int, i2: int, m: int)
    requires
        0 <= i < x.len(),
        0 <= i2 < x.len(),
        0 <= m,
    ensures
        m <= density(x, i, m) <= m * x.len(),
        (forall|j: int| 0 <= j < m ==> #[trigger] x[i][j]@ == x[i2][j]@) ==> density(x, i, m) == density(x, i2, m),
    decreases m,
{
    lemma_density_bound(x, i, m);
    if m > 0 {
        lemma_density_counts_shared_categories(x, i, i2, m - 1);
        lemma_column_count_self(x, i, m - 1, x.len() as int);
        if forall|j: int| 0 <= j < m ==> #[trigger] x[i][j]@ == x[i2][j]@ {
            assert(x[i][m - 1]@ == x[i2][m - 1]@);
        }
    }
}

/// Whether `v` holds the index `i`.
fn contains_index(v: &Vec<usize>, i: usize) -> (r: bool)
    ensures
        r == v@.contains(i),
{
    for a in 0..v.len()
        invariant
            forall|b: int| 0 <= b < a ==> v@[b] != i,
    {
        if v[a] == i {
            return true;
        }
    }
    false
}

/// The densities of all observations, `density(x, i, ncols)` for each `i`.
fn cao_densities<T: EquivalenceTarget>(x: &Matrix<T>) -> (dens: Vec<usize>)
    ensures
        dens@.len() == x@.len(),
        forall|i: int| 0 <= i < x@.len() ==> #[trigger] dens@[i] == density(x@, i, x.width() as int),
{
    x.assert_wf();
    let (n_points, n_attrs) = x.dim();
    let mut dens: Vec<usize> = Vec::new();
    for i in 0..n_points
        invariant
            dens@.len() == i,
            forall|a: int| 0 <= a < i ==> #[trigger] dens@[a] == 0,
    {
        dens.push(0);
    }
    for iattr in 0..n_attrs
        invariant
            x.wf(),
            n_points == x@.len(),
            n_attrs == x.width(),
            dens@.len() == n_points,
            forall|a: int| 0 <= a < n_points ==> #[trigger] dens@[a] == density(x@, a, iattr as int),
    {
        let mut freq: FrequencyTable<T> = FrequencyTable::new();
        for p in 0..n_points
            invariant
                x.wf(),
                n_points == x@.len(),
                n_attrs == x.width(),
                iattr < n_attrs,
                freq.wf(),
                forall|v: T::V| #[trigger] freq.count(v) == column_count(x@, iattr as int, v, p as int),
        {
            let v = x.get(p, iattr);
            proof { lemma_column_count_bound(x@, iattr as int, v@, p as int); }
            freq.increment(v);
        }
        for p in 0..n_points
            invariant
                x.wf(),
                n_points == x@.len(),
                n_attrs == x.width(),
                iattr < n_attrs,
                freq.wf(),
                forall|v: T::V| #[trigger] freq.count(v) == column_count(x@, iattr as int, v, n_points as int),
                dens@.len() == n_points,
                forall|a: int| 0 <= a < p ==> #[trigger] dens@[a] == density(x@, a, iattr + 1),
                forall|a: int| p <= a < n_points ==> #[trigger] dens@[a] == density(x@, a, iattr as int),
        {
            let c = freq.count_of(x.get(p, iattr));
            proof {
                lemma_density_bound(x@, p as int, iattr + 1);
                assert((iattr + 1) * n_points <= n_attrs * n_points) by (nonlinear_arith)
                    requires
                        iattr + 1 <= n_attrs,
                ;
                assert(n_attrs * n_points == n_points * n_attrs) by (nonlinear_arith);
            }
            dens.set(p, dens[p] + c);
        }
    }
    dens
}

/// Cao's score of observation `i` against the chosen observations `sel`.
fn cao_point_score<T: EquivalenceTarget>(x: &Matrix<T>, dens: &Vec<usize>, sel: &Vec<usize>, i: usize) -> (r:
    u128)
    requires
        i < x@.len(),
        dens@.len() == x@.len(),
        forall|a: int| 0 <= a < x@.len() ==> #[trigger] dens@[a] == density(x@, a, x.width() as int),
        sel@.len() >= 1,
        forall|t: int| 0 <= t < sel@.len() ==> #[trigger] sel@[t] < x@.len(),
    ensures
        r == cao_score(x@, x.width() as int, sel@, i as int, sel@.len() as int),
{
    let row = x.row(i);
    let d = dens[i];
    let mut min_d: u128 = 0;
    for c in 0..sel.len()
        invariant
            i < x@.len(),
            row@ == x@[i as int],
            d == density(x@, i as int, x.width() as int),
            forall|t: int| 0 <= t < sel@.len() ==> #[trigger] sel@[t] < x@.len(),
            c > 0 ==> min_d == cao_score(x@, x.width() as int, sel@, i as int, c as int),
    {
        let dist = matching_dissim(row, x.row(sel[c]));
        proof {
            assert((dist as int) * (d as int) <= 0xffff_ffff_ffff_ffffint * 0xffff_ffff_ffff_ffffint) by (nonlinear_arith)
                requires
                    dist <= 0xffff_ffff_ffff_ffffint,
                    d <= 0xffff_ffff_ffff_ffffint,
            ;
        }
        let score: u128 = (dist as u128) * (d as u128);
        if c == 0 || score < min_d {
            min_d = score;
        }
    }
    min_d
}

/// Cao's next centroid after the chosen observations `sel`.
fn cao_next<T: EquivalenceTarget>(x: &Matrix<T>, dens: &Vec<usize>, sel: &Vec<usize>) -> (b: usize)
    requires
        dens@.len() == x@.len(),
        forall|a: int| 0 <= a < x@.len() ==> #[trigger] dens@[a] == density(x@, a, x.width() as int),
        sel@.len() >= 1,
        forall|t: int| 0 <= t < sel@.len() ==> #[trigger] sel@[t] < x@.len(),
    ensures
        is_cao_next(x@, x.width() as int, sel@, b as int),
        b < x@.len() || (b == 0 && x@.len() == 0),
{
    let n_points = x.nrows();
    let ghost m = x.width() as int;
    let ghost len = sel@.len() as int;
    let mut found = false;
    let mut best_idx: usize = 0;
    let mut best_score: u128 = 0;
    for i in 0..n_points
        invariant
            n_points == x@.len(),
            m == x.width(),
            len == sel@.len(),
            dens@.len() == x@.len(),
            forall|a: int| 0 <= a < x@.len() ==> #[trigger] dens@[a] == density(x@, a, m),
            sel@.len() >= 1,
            forall|t: int| 0 <= t < sel@.len() ==> #[trigger] sel@[t] < x@.len(),
            !found ==> best_idx == 0 && forall|a: int| 0 <= a < i ==> #[trigger] sel@.contains(a as usize),
            found ==> best_idx < i && !sel@.contains(best_idx) && best_score == cao_score(x@, m, sel@, best_idx as int, len),
            found ==> forall|a: int|
                0 <= a < i && !sel@.contains(a as usize) ==> #[trigger] cao_score(x@, m, sel@, a, len) <= best_score,
            found ==> forall|a: int|
                0 <= a < best_idx && !sel@.contains(a as usize) ==> #[trigger] cao_score(x@, m, sel@, a, len) < best_score,
    {
        if !contains_index(sel, i) {
            let s = cao_point_score(x, dens, sel, i);
            if !found || s > best_score {
                found = true;
                best_idx = i;
                best_score = s;
            }
        }
    }
    proof {
        if !found {
            assert(!exists|i: int| 0 <= i < x@.len() && !#[trigger] sel@.contains(i as usize));
        }
    }
    best_idx
}

/// Cao initialization (Cao et al. [2009]): the first centroid is the
/// observation of largest density, each next one the observation not taken
/// yet that maximizes the least density-weighted dissimilarity to the
/// centroids taken so far.
pub(crate) fn init_cao<T: EquivalenceTarget>(x: &Matrix<T>, n_clusters: usize) -> (r: Matrix<T>)
    requires
        n_clusters <= x@.len(),
    ensures
        r.width() == x.width(),
        exists|sel: Seq<usize>|
            sel.len() == n_clusters && #[trigger] is_cao_selection(x@, x.width() as int, sel) && rows_of(
                r@,
                x@,
                sel,
            ),
{
    let n_points = x.nrows();
    let ghost m = x.width() as int;
    let mut selected: Vec<usize> = Vec::new();
    if n_clusters == 0 {
        let r = rows_at(x, &selected);
        assert(is_cao_selection(x@, m, selected@));
        return r;
    }
    let dens = cao_densities(x);
    let mut first_idx: usize = 0;
    for i in 0..n_points
        invariant
            n_points == x@.len(),
            m == x.width(),
            dens@.len() == x@.len(),
            forall|a: int| 0 <= a < x@.len() ==> #[trigger] dens@[a] == density(x@, a, m),
            i > 0 ==> first_idx < i,
            forall|a: int| 0 <= a < i ==> #[trigger] density(x@, a, m) <= density(x@, first_idx as int, m),
            forall|a: int| first_idx < a < i ==> #[trigger] density(x@, a, m) < density(x@, first_idx as int, m),
    {
        if i == 0 || dens[i] >= dens[first_idx] {
            first_idx = i;
        }
    }
    selected.push(first_idx);
    for t in 1..n_clusters
        invariant
            n_points == x@.len(),
            n_clusters <= n_points,
            m == x.width(),
            dens@.len() == x@.len(),
            forall|a: int| 0 <= a < x@.len() ==> #[trigger] dens@[a] == density(x@, a, m),
            selected@.len() == t,
            forall|a: int| 0 <= a < t ==> #[trigger] selected@[a] < x@.len(),
            is_cao_selection(x@, m, selected@),
    {
        let b = cao_next(x, &dens, &selected);
        let ghost prev = selected@;
        selected.push(b);
        proof {
            assert(selected@.take(t as int) == prev);
            assert forall|u: int| 1 <= u < selected@.len() implies is_cao_next(x@, m, selected@.take(u), #[trigger] selected@[u] as int) by {
                if u < t {
                    assert(selected@.take(u) == prev.take(u));
                    assert(selected@[u] == prev[u]);
                }
            }
        }
    }
    rows_at(x, &selected)
}

/// Cao's first centroid is unique.
proof fn lemma_cao_first_unique<T: View>(x: Seq<Seq<T>>, m: int, f1: int, f2: int)
    requires
        is_cao_first(x, m, f1),
        is_cao_first(x, m, f2),
    ensures
        f1 == f2,
{
    if f1 < f2 {
        assert(density(x, f2, m) < density(x, f1, m));
        assert(density(x, f2, m) >= density(x, f1, m));
    } else if f2 < f1 {
        assert(density(x, f1, m) < density(x, f2, m));
        assert(density(x, f1, m) >= density(x, f2, m));
    }
}

/// Cao's next centroid after the same taken observations is unique.
proof fn lemma_cao_next_unique<T: View>(x: Seq<Seq<T>>, m: int, taken: Seq<usize>, b1: int, b2: int)
    requires
        is_cao_next(x, m, taken, b1),
        is_cao_next(x, m, taken, b2),
    ensures
        b1 == b2,
{
    if exists|i: int| 0 <= i < x.len() && !#[trigger] taken.contains(i as usize) {
        let n = taken.len() as int;
        if b1 < b2 {
            assert(cao_score(x, m, taken, b1, n) < cao_score(x, m, taken, b2, n));
            assert(cao_score(x, m, taken, b2, n) <= cao_score(x, m, taken, b1, n));
        } else if b2 < b1 {
            assert(cao_score(x, m, taken, b2, n) < cao_score(x, m, taken, b1, n));
            assert(cao_score(x, m, taken, b1, n) <= cao_score(x, m, taken, b2, n));
        }
    }
}

/// Cao's initialization is deterministic: two selections of the same number of
/// centroids for the same observations are equal.
pub proof fn lemma_cao_selection_unique<T: View>(x: Seq<Seq<T>>, m: int, s1: Seq<usize>, s2: Seq<usize>)
    requires
        is_cao_selection(x, m, s1),
        is_cao_selection(x, m, s2),
        s1.len() == s2.len(),
    ensures
        s1 == s2,
    decreases s1.len(),
{
    let n = s1.len() as int;
    if n == 1 {
        lemma_cao_first_unique(x, m, s1[0] as int, s2[0] as int);
        assert(s1 =~= s2);
    } else if n > 1 {
        let p1 = s1.take(n - 1);
        let p2 = s2.take(n - 1);
        assert forall|t: int| 1 <= t < p1.len() implies is_cao_next(x, m, p1.take(t), #[trigger] p1[t] as int) by {
            assert(p1.take(t) == s1.take(t));
            assert(is_cao_next(x, m, s1.take(t), s1[t] as int));
        }
        assert forall|t: int| 1 <= t < p2.len() implies is_cao_next(x, m, p2.take(t), #[trigger] p2[t] as int) by {
            assert(p2.take(t) == s2.take(t));
            assert(is_cao_next(x, m, s2.take(t), s2[t] as int));
        }
        lemma_cao_selection_unique(x, m, p1, p2);
        assert(is_cao_next(x, m, s1.take(n - 1), s1[n - 1] as int));
        assert(is_cao_next(x, m, s2.take(n - 1), s2[n - 1] as int));
        lemma_cao_next_unique(x, m, p1, s1[n - 1] as int, s2[n - 1] as int);
        assert forall|i: int| 0 <= i < n implies s1[i] == s2[i] by {
            if i < n - 1 {
                assert(s1[i] == p1[i] && s2[i] == p2[i]);
            }
        }
        assert(s1 =~= s2);
    } else {
        assert(s1 =~= s2);
    }
}

/// Cao's initialization is deterministic: the centroids it may produce for the
/// same observations and number of clusters are the same, category by category.
pub proof fn lemma_cao_deterministic<T: View>(
    x: Seq<Seq<T>>,
    m: int,
    n_clusters: int,
    r1: Seq<Seq<T>>,
    r2: Seq<Seq<T>>,
)
    requires
        KModesInit::<T>::Cao.initializes(x, m, n_clusters, r1),
        KModesInit::<T>::Cao.initializes(x, m, n_clusters, r2),
    ensures
        r1.len() == r2.len(),
        forall|i: int| 0 <= i < r1.len() ==> #[trigger] r1[i].len() == r2[i].len(),
        forall|i: int, j: int| 0 <= i < r1.len() && 0 <= j < r1[i].len() ==> #[trigger] r1[i][j]@ == r2[i][j]@,
{
    let s1 = choose|sel: Seq<usize>|
        sel.len() == n_clusters && #[trigger] is_cao_selection(x, m, sel) && rows_of(r1, x, sel);
    let s2 = choose|sel: Seq<usize>|
        sel.len() == n_clusters && #[trigger] is_cao_selection(x, m, sel) && rows_of(r2, x, sel);
    lemma_cao_selection_unique(x, m, s1, s2);
    assert forall|i: int, j: int| 0 <= i < r1.len() && 0 <= j < r1[i].len() implies #[trigger] r1[i][j]@ == r2[i][j]@ by {
        assert(r1[i][j]@ == x[s1[i] as int][j]@);
        assert(r2[i][j]@ == x[s2[i] as int][j]@);
    }
}

impl<T: View> KModesInit<T> {
    /// The inputs this method accepts: precomputed centroids must have shape
    /// `(n_clusters, n_attrs)`; the other methods need `n_clusters <= n_points`.
    pub open spec fn fits(&self, n_clusters: int, n_points: int, n_attrs: int) -> bool {
        match self {
            KModesInit::Precomputed(c) => c@.len() == n_clusters && c.width() == n_attrs,
            _ => n_clusters <= n_points,
        }
    }

    /// `r` is centroids that this method may produce for `x`.
    pub open spec fn initializes(&self, x: Seq<Seq<T>>, m: int, n_clusters: int, r: Seq<Seq<T>>) -> bool {
        match self {
            KModesInit::Cao => exists|sel: Seq<usize>|
                sel.len() == n_clusters && #[trigger] is_cao_selection(x, m, sel) && rows_of(r, x, sel),
            KModesInit::Huang => exists|tent: Seq<Seq<T>>, src: Seq<Seq<int>>, sel: Seq<usize>|
                #![trigger sampled_from_columns(tent, x, m, src), is_huang_selection(x, tent, sel)]
                tent.len() == n_clusters && sampled_from_columns(tent, x, m, src) && is_huang_selection(
                    x,
                    tent,
                    sel,
                ) && rows_of(r, x, sel),
            KModesInit::Random => exists|sel: Seq<usize>|
                sel.len() == n_clusters && distinct(sel) && #[trigger] rows_of(r, x, sel),
            KModesInit::Precomputed(c) => forall|i: int, j: int|
                0 <= i < c@.len() && 0 <= j < c@[i].len() ==> #[trigger] r[i][j]@ == c@[i][j]@,
        }
    }
}

impl<T: EquivalenceTarget> KModesInit<T> {
    /// Executes the configured initialization routine and returns initial centroids.
    pub fn run<R: RandomSource>(&self, n_clusters: usize, observations: &Matrix<T>, rng: &mut R) -> (r:
        Matrix<T>)
        requires
            self.fits(n_clusters as int, observations@.len() as int, observations.width() as int),
        ensures
            r@.len() == n_clusters,
            r.width() == observations.width(),
            self.initializes(observations@, observations.width() as int, n_clusters as int, r@),
            *self is Cao || *self is Precomputed ==> *final(rng) == *old(rng),
    {
        match self {
            KModesInit::Cao => init_cao(observations, n_clusters),
            KModesInit::Huang => init_huang(observations, n_clusters, rng),
            KModesInit::Random => random_init(observations, n_clusters, rng),
            KModesInit::Precomputed(centroids) => centroids.duplicate(),
        }
    }
}

} // verus!
