//! What one run of K-Modes does, step by step: the initial assignment and
//! modes, the move of one point, a sweep over all points, and a whole run.
//! The only freedom these relations leave is what the run leaves to chance
//! (the initial centroids of the random methods, the observation an empty
//! cluster takes) and which of equally frequent categories becomes a mode.

use vstd::prelude::*;

use crate::init::KModesInit;
use crate::model::{category_count, cluster_size, has_width, is_nearest};

verus! {

/// The state of a run: the centroids and the memberships.
pub type RunState<T> = (Seq<Seq<T>>, Seq<usize>);

/// How many observations of cluster `k` hold category `v` in attribute `j`.
pub open spec fn count_in_cluster<T: View>(x: Seq<Seq<T>>, memb: Seq<usize>, k: int, j: int, v: T::V) -> nat {
    category_count(x, memb, k, j, v, x.len() as int)
}

/// `row` holds the categories of observation `i` of `x`.
pub open spec fn copies_observation<T: View>(x: Seq<Seq<T>>, row: Seq<T>, i: int) -> bool {
    &&& 0 <= i < x.len()
    &&& forall|j: int| 0 <= j < row.len() ==> #[trigger] row[j]@ == x[i][j]@
}

/// `row` holds the categories of some observation of `x`.
pub open spec fn copies_some_observation<T: View>(x: Seq<Seq<T>>, row: Seq<T>) -> bool {
    exists|i: int| copies_observation(x, row, i)
}

/// Attribute `j` of the centroid of cluster `k`, which was `old_c`, after the
/// cluster received an observation with category `p` there: `p` when `p` is
/// now strictly more frequent than `old_c`, else unchanged.
pub open spec fn receives<T: View>(x: Seq<Seq<T>>, memb: Seq<usize>, k: int, j: int, p: T::V, old_c: T, new_c: T) -> bool {
    if count_in_cluster(x, memb, k, j, p) > count_in_cluster(x, memb, k, j, old_c@) {
        new_c@ == p
    } else {
        new_c == old_c
    }
}

/// Attribute `j` of the centroid of cluster `k`, which was `old_c`, after the
/// cluster lost an observation with category `p` there: when `old_c` was `p`
/// and some category is now strictly more frequent than `p`, a most frequent
/// category; else unchanged.
pub open spec fn loses<T: View>(x: Seq<Seq<T>>, memb: Seq<usize>, k: int, j: int, p: T::V, old_c: T, new_c: T) -> bool {
    if old_c@ == p && exists|v: T::V| #[trigger] count_in_cluster(x, memb, k, j, v) > count_in_cluster(x, memb, k, j, p) {
        &&& count_in_cluster(x, memb, k, j, new_c@) > 0
        &&& forall|v: T::V| #[trigger] count_in_cluster(x, memb, k, j, v) <= count_in_cluster(x, memb, k, j, new_c@)
    } else {
        new_c == old_c
    }
}

/// Attribute `j` of the centroid of a cluster `k` with members, which was
/// `old_c`, after the modes are computed: a most frequent category when some
/// category is strictly more frequent than `old_c`, else unchanged.
pub open spec fn refreshes<T: View>(x: Seq<Seq<T>>, memb: Seq<usize>, k: int, j: int, old_c: T, new_c: T) -> bool {
    if exists|v: T::V| #[trigger] count_in_cluster(x, memb, k, j, v) > count_in_cluster(x, memb, k, j, old_c@) {
        forall|v: T::V| #[trigger] count_in_cluster(x, memb, k, j, v) <= count_in_cluster(x, memb, k, j, new_c@)
    } else {
        new_c == old_c
    }
}

/// Moving observation `p` from cluster `from` to cluster `to`, which leaves
/// the memberships `memb`, takes the centroids `c` to `c2`: the centroids of
/// the other clusters stay, the two involved change by `receives` and `loses`.
pub open spec fn moves_point<T: View>(
    x: Seq<Seq<T>>,
    memb: Seq<usize>,
    c: Seq<Seq<T>>,
    c2: Seq<Seq<T>>,
    p: int,
    to: int,
    from: int,
) -> bool {
    &&& c2.len() == c.len()
    &&& forall|k: int| 0 <= k < c.len() && k != to && k != from ==> #[trigger] c2[k] == c[k]
    &&& c2[to].len() == c[to].len()
    &&& c2[from].len() == c[from].len()
    &&& forall|j: int| 0 <= j < c[to].len() ==> receives(x, memb, to, j, x[p][j]@, c[to][j], #[trigger] c2[to][j])
    &&& forall|j: int| 0 <= j < c[from].len() ==> loses(x, memb, from, j, x[p][j]@, c[from][j], #[trigger] c2[from][j])
}

/// `l` is the largest of `k` clusters (the last one among equally large ones).
pub open spec fn is_largest(memb: Seq<usize>, n: int, k: int, l: int) -> bool {
    &&& 0 <= l < k
    &&& forall|a: int| 0 <= a < k ==> #[trigger] cluster_size(memb, a, n) <= cluster_size(memb, l, n)
    &&& forall|a: int| l < a < k ==> #[trigger] cluster_size(memb, a, n) < cluster_size(memb, l, n)
}

/// The step of a sweep at observation `i`, from state `s` through `mid` to
/// `s2`: `to` is the first nearest centroid of observation `i`. If it is the
/// observation's cluster nothing changes; otherwise the observation moves
/// there, and if its old cluster is left empty, observation `r` of the
/// largest cluster moves into it.
pub open spec fn point_step<T: View>(
    x: Seq<Seq<T>>,
    k: int,
    s: RunState<T>,
    mid: RunState<T>,
    s2: RunState<T>,
    i: int,
    to: int,
    r: int,
) -> bool {
    let n = x.len() as int;
    let from = s.1[i] as int;
    &&& is_nearest(s.0, x[i], to)
    &&& if to == from {
        mid == s && s2 == s
    } else {
        &&& mid.1 == s.1.update(i, to as usize)
        &&& moves_point(x, mid.1, s.0, mid.0, i, to, from)
        &&& if cluster_size(mid.1, from, n) == 0 {
            &&& 0 <= r < n
            &&& is_largest(mid.1, n, k, mid.1[r] as int)
            &&& s2.1 == mid.1.update(r, from as usize)
            &&& moves_point(x, s2.1, mid.0, s2.0, r, from, mid.1[r] as int)
        } else {
            s2 == mid
        }
    }
}

/// Number of the first `i` steps of a sweep in which the observation moved.
pub open spec fn moved_points<T>(states: Seq<RunState<T>>, tos: Seq<int>, i: int) -> nat
    decreases i,
{
    if i <= 0 {
        0
    } else {
        moved_points(states, tos, i - 1) + (if tos[i - 1] != states[i - 1].1[i - 1] as int { 1nat } else { 0nat })
    }
}

/// The states of a sweep, one per observation, linked by `point_step`.
pub open spec fn sweep_chain<T: View>(
    x: Seq<Seq<T>>,
    k: int,
    states: Seq<RunState<T>>,
    mids: Seq<RunState<T>>,
    tos: Seq<int>,
    rs: Seq<int>,
) -> bool {
    let n = x.len() as int;
    &&& states.len() == n + 1
    &&& mids.len() == n
    &&& tos.len() == n
    &&& rs.len() == n
    &&& forall|i: int|
        0 <= i < n ==> #[trigger] point_step(x, k, states[i], mids[i], states[i + 1], i, tos[i], rs[i])
}

/// One sweep over the observations takes state `s` to `s2`, moving `moves`
/// observations.
pub open spec fn sweeps_from<T: View>(x: Seq<Seq<T>>, k: int, s: RunState<T>, s2: RunState<T>, moves: nat) -> bool {
    exists|states: Seq<RunState<T>>, mids: Seq<RunState<T>>, tos: Seq<int>, rs: Seq<int>|
        #[trigger] sweep_chain(x, k, states, mids, tos, rs) && states[0] == s && states[x.len() as int] == s2
            && moves == moved_points(states, tos, x.len() as int)
}

/// The state `s` that starts a run from the centroids `c0`: every observation
/// at its first nearest centroid; a centroid with members turned into most
/// frequent categories, one without members replaced by an observation.
pub open spec fn starts_from<T: View>(x: Seq<Seq<T>>, k: int, c0: Seq<Seq<T>>, s: RunState<T>) -> bool {
    let n = x.len() as int;
    &&& s.1.len() == n
    &&& forall|i: int| 0 <= i < n ==> is_nearest(c0, x[i], #[trigger] s.1[i] as int)
    &&& s.0.len() == k
    &&& forall|l: int| 0 <= l < k ==> #[trigger] s.0[l].len() == c0[l].len()
    &&& forall|l: int|
        0 <= l < k && cluster_size(s.1, l, n) == 0 ==> copies_some_observation(x, #[trigger] s.0[l])
    &&& forall|l: int, j: int|
        0 <= l < k && cluster_size(s.1, l, n) > 0 && 0 <= j < c0[l].len() ==> refreshes(
            x,
            s.1,
            l,
            j,
            c0[l][j],
            #[trigger] s.0[l][j],
        )
}

/// The centroids `c0` that `init` gives, the starting state, and one state
/// after each sweep, linked by `sweeps_from` with the sweeps' move counts.
pub open spec fn run_chain<T: View>(
    x: Seq<Seq<T>>,
    init: KModesInit<T>,
    k: int,
    m: int,
    c0: Seq<Seq<T>>,
    epochs: Seq<RunState<T>>,
    sweeps: Seq<usize>,
) -> bool {
    &&& init.initializes(x, m, k, c0)
    &&& c0.len() == k
    &&& has_width(c0, m)
    &&& epochs.len() == sweeps.len() + 1
    &&& starts_from(x, k, c0, epochs[0])
    &&& forall|t: int|
        0 <= t < sweeps.len() ==> sweeps_from(x, k, #[trigger] epochs[t], epochs[t + 1], sweeps[t] as nat)
}

/// `modes` and `memb` are what a run of K-Modes with method `init`, `k`
/// clusters and the move counts `sweeps` ends with.
pub open spec fn is_run<T: View>(
    x: Seq<Seq<T>>,
    init: KModesInit<T>,
    k: int,
    m: int,
    modes: Seq<Seq<T>>,
    memb: Seq<usize>,
    sweeps: Seq<usize>,
) -> bool {
    exists|c0: Seq<Seq<T>>, epochs: Seq<RunState<T>>|
        #[trigger] run_chain(x, init, k, m, c0, epochs, sweeps) && epochs[sweeps.len() as int] == (modes, memb)
}


/// No step counted by `moved_points` moved its observation when the count is 0.
proof fn lemma_no_moves<T>(states: Seq<RunState<T>>, tos: Seq<int>, n: int)
    requires
        moved_points(states, tos, n) == 0,
    ensures
        forall|i: int| 0 <= i < n ==> #[trigger] tos[i] == states[i].1[i] as int,
    decreases n,
{
    if n > 0 {
        lemma_no_moves(states, tos, n - 1);
    }
}

/// A sweep that moves no observation changes nothing, and then every
/// observation already sits at its first nearest centroid.
pub proof fn lemma_quiet_sweep_is_fixed<T: View>(x: Seq<Seq<T>>, k: int, s: RunState<T>, s2: RunState<T>)
    requires
        sweeps_from(x, k, s, s2, 0),
    ensures
        s2 == s,
        forall|i: int| 0 <= i < x.len() ==> is_nearest(s.0, x[i], #[trigger] s.1[i] as int),
{
    let n = x.len() as int;
    let (states, mids, tos, rs) = choose|states: Seq<RunState<T>>, mids: Seq<RunState<T>>, tos: Seq<int>, rs: Seq<int>|
        #[trigger] sweep_chain(x, k, states, mids, tos, rs) && states[0] == s && states[n] == s2 && 0
            == moved_points(states, tos, n);
    lemma_no_moves(states, tos, n);
    assert forall|i: int| 0 <= i <= n implies #[trigger] states[i] == s by {
        lemma_quiet_prefix(x, k, states, mids, tos, rs, s, i);
    }
    assert forall|i: int| 0 <= i < n implies is_nearest(s.0, x[i], #[trigger] s.1[i] as int) by {
        assert(point_step(x, k, states[i], mids[i], states[i + 1], i, tos[i], rs[i]));
        assert(states[i] == s);
        assert(tos[i] == states[i].1[i] as int);
    }
}

proof fn lemma_quiet_prefix<T: View>(
    x: Seq<Seq<T>>,
    k: int,
    states: Seq<RunState<T>>,
    mids: Seq<RunState<T>>,
    tos: Seq<int>,
    rs: Seq<int>,
    s: RunState<T>,
    i: int,
)
    requires
        sweep_chain(x, k, states, mids, tos, rs),
        states[0] == s,
        0 <= i <= x.len(),
        forall|j: int| 0 <= j < x.len() ==> #[trigger] tos[j] == states[j].1[j] as int,
    ensures
        states[i] == s,
    decreases i,
{
    if i > 0 {
        let j = i - 1;
        lemma_quiet_prefix(x, k, states, mids, tos, rs, s, j);
        assert(0 <= j < x.len());
        assert(point_step(x, k, states[j], mids[j], states[j + 1], j, tos[j], rs[j]));
        assert(tos[j] == states[j].1[j] as int);
        assert(j + 1 == i);
    }
}

/// A run whose last sweep moved nothing ends with every observation at its
/// first nearest centroid.
pub proof fn lemma_run_ends_at_nearest<T: View>(
    x: Seq<Seq<T>>,
    init: KModesInit<T>,
    k: int,
    m: int,
    modes: Seq<Seq<T>>,
    memb: Seq<usize>,
    sweeps: Seq<usize>,
)
    requires
        is_run(x, init, k, m, modes, memb, sweeps),
        sweeps.len() > 0,
        sweeps[sweeps.len() - 1] == 0,
    ensures
        forall|i: int| 0 <= i < x.len() ==> is_nearest(modes, x[i], #[trigger] memb[i] as int),
{
    let (c0, epochs) = choose|c0: Seq<Seq<T>>, epochs: Seq<RunState<T>>|
        #[trigger] run_chain(x, init, k, m, c0, epochs, sweeps) && epochs[sweeps.len() as int] == (modes, memb);
    let t = sweeps.len() - 1;
    assert(sweeps_from(x, k, epochs[t], epochs[t + 1], sweeps[t] as nat));
    lemma_quiet_sweep_is_fixed(x, k, epochs[t], epochs[t + 1]);
    assert(t + 1 == sweeps.len());
    assert(epochs[t + 1] == (modes, memb));
    let e = epochs[t];
    assert(e == (modes, memb));
    assert forall|i: int| 0 <= i < x.len() implies is_nearest(modes, x[i], #[trigger] memb[i] as int) by {
        assert(is_nearest(e.0, x[i], e.1[i] as int));
    }
}

} // verus!
