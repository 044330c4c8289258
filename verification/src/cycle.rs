//! The cycle extractor: turns an ant tour's incidence matrix into the
//! candidate cycle, a list of distinct unordered vertex-id pairs with the
//! reverse orientation removed, sorted by endpoints. For a tour built by
//! the tour constructor the list holds exactly one edge per vertex pair of
//! the walked cycle — `n` edges in all.

use vstd::prelude::*;
use crate::matrix::{mat, is_square, mat_get};
use crate::graph::MAX_VERTICES;
use crate::tour::{ham_order, cyc_adj, cycle_matrix};

verus! {

/// Strict lexicographic order on id pairs.
pub open spec fn pair_lt(a: (u64, u64), b: (u64, u64)) -> bool {
    a.0 < b.0 || (a.0 == b.0 && a.1 < b.1)
}

/// The edge list is strictly sorted by endpoints.
pub open spec fn pairs_sorted(edges: Seq<(u64, u64)>) -> bool {
    forall|k1: int, k2: int|
        0 <= k1 < k2 < edges.len() ==> pair_lt(#[trigger] edges[k1], #[trigger] edges[k2])
}

/// Every listed pair is an ordered pair of vertex ids of `1 ..= n`.
pub open spec fn pairs_in_range(edges: Seq<(u64, u64)>, n: int) -> bool {
    forall|k: int| 0 <= k < edges.len() ==> 1 <= (#[trigger] edges[k]).0 < edges[k].1 <= n
}

/// The list holds the pair of ids `(i + 1, j + 1)` exactly for the cells
/// `i < j` of the matrix that are set.
pub open spec fn pairs_match(edges: Seq<(u64, u64)>, m: Seq<Seq<u64>>, n: int) -> bool {
    forall|i: int, j: int|
        0 <= i < j < n ==> (#[trigger] m[i][j] != 0 <==> edges.contains(
            (((i + 1) as u64, (j + 1) as u64)),
        ))
}

/// Lists the distinct unordered edges of an incidence matrix, each as the
/// pair of its vertex ids in ascending order, sorted by endpoints.
pub fn extract_cycle(incidence: &Vec<Vec<u64>>, n: usize) -> (edges: Vec<(u64, u64)>)
    requires
        is_square(mat(*incidence), n as int),
        n <= MAX_VERTICES,
    ensures
        pairs_in_range(edges@, n as int),
        pairs_sorted(edges@),
        pairs_match(edges@, mat(*incidence), n as int),
{
    let mut edges: Vec<(u64, u64)> = Vec::new();
    let mut i: usize = 0;
    while i < n
        invariant
            i <= n <= MAX_VERTICES,
            is_square(mat(*incidence), n as int),
            pairs_in_range(edges@, n as int),
            pairs_sorted(edges@),
            forall|k: int| 0 <= k < edges@.len() ==> (#[trigger] edges@[k]).0 <= i,
            forall|a: int, b: int|
                0 <= a < b < n && a < i ==> (#[trigger] mat(*incidence)[a][b] != 0
                    <==> edges@.contains((((a + 1) as u64, (b + 1) as u64)))),
        decreases n - i,
    {
        let mut j: usize = i + 1;
        while j < n
            invariant
                i < n <= MAX_VERTICES,
                i < j <= n,
                is_square(mat(*incidence), n as int),
                pairs_in_range(edges@, n as int),
                pairs_sorted(edges@),
                forall|k: int|
                    0 <= k < edges@.len() ==> ((#[trigger] edges@[k]).0 < i + 1 || (edges@[k].0 == i
                        + 1 && edges@[k].1 < j + 1)),
                forall|a: int, b: int|
                    0 <= a < b < n && a < i ==> (#[trigger] mat(*incidence)[a][b] != 0
                        <==> edges@.contains((((a + 1) as u64, (b + 1) as u64)))),
                forall|b: int|
                    i < b < j ==> (#[trigger] mat(*incidence)[i as int][b] != 0 <==> edges@.contains(
                        (((i + 1) as u64, (b + 1) as u64)),
                    )),
            decreases n - j,
        {
            let ghost old_edges = edges@;
            let cell = mat_get(incidence, i, j);
            if cell != 0 {
                edges.push(((i as u64) + 1, (j as u64) + 1));
                proof {
                    assert(edges@ == old_edges.push((((i + 1) as u64, (j + 1) as u64))));
                    assert(edges@[old_edges.len() as int] == (((i + 1) as u64, (j + 1) as u64)));
                    assert(edges@.contains((((i + 1) as u64, (j + 1) as u64))));
                    assert forall|x: (u64, u64)| edges@.contains(x) implies (old_edges.contains(x)
                        || x == (((i + 1) as u64, (j + 1) as u64))) by {
                        let k = choose|k: int| 0 <= k < edges@.len() && edges@[k] == x;
                        if k < old_edges.len() {
                            assert(old_edges[k] == x);
                        }
                    }
                    assert(forall|x: (u64, u64)|
                        old_edges.contains(x) ==> edges@.contains(x)) by {
                        assert forall|x: (u64, u64)| old_edges.contains(x) implies edges@.contains(
                            x,
                        ) by {
                            let k = choose|k: int|
                                0 <= k < old_edges.len() && old_edges[k] == x;
                            assert(edges@[k] == x);
                        }
                    }
                }
            } else {
                proof {
                    assert(!edges@.contains((((i + 1) as u64, (j + 1) as u64)))) by {
                        if edges@.contains((((i + 1) as u64, (j + 1) as u64))) {
                            let k = choose|k: int|
                                0 <= k < edges@.len() && edges@[k] == (((i + 1) as u64, (j
                                    + 1) as u64));
                        }
                    }
                }
            }
            j = j + 1;
        }
        i = i + 1;
    }
    edges
}

/// The normalized id pair of the `t`-th step of the tour `order` (the
/// last step closes back to the start).
pub open spec fn step_pair(order: Seq<int>, n: int, t: int) -> (u64, u64) {
    let a = order[t];
    let b = order[if t == n - 1 { 0int } else { t + 1 }];
    if a < b {
        (((a + 1) as u64, (b + 1) as u64))
    } else {
        (((b + 1) as u64, (a + 1) as u64))
    }
}

/// The sequence of normalized step pairs of a tour.
pub open spec fn step_pairs(order: Seq<int>, n: int) -> Seq<(u64, u64)> {
    Seq::new(n as nat, |t: int| step_pair(order, n, t))
}

/// Two different steps of a Hamiltonian tour on at least three vertices
/// use two different unordered pairs.
pub proof fn lemma_step_pairs_distinct(order: Seq<int>, n: int)
    requires
        ham_order(order, n),
        3 <= n <= MAX_VERTICES as int,
    ensures
        step_pairs(order, n).no_duplicates(),
{
    let ps = step_pairs(order, n);
    assert forall|t: int, s: int|
        0 <= t < ps.len() && 0 <= s < ps.len() && t != s implies ps[t] != ps[s] by {
        let tn: int = if t == n - 1 { 0 } else { t + 1 };
        let sn: int = if s == n - 1 { 0 } else { s + 1 };
        assert(tn != t && sn != s);
        if ps[t] == ps[s] {
            let ta = order[t];
            let tb = order[tn];
            let sa = order[s];
            let sb = order[sn];
            assert(0 <= ta < n && 0 <= tb < n && 0 <= sa < n && 0 <= sb < n);
            assert(ta != tb && sa != sb);
            assert(ps[t] == step_pair(order, n, t));
            assert(ps[s] == step_pair(order, n, s));
            assert(((ta + 1) as u64) as int == ta + 1);
            assert(((tb + 1) as u64) as int == tb + 1);
            assert(((sa + 1) as u64) as int == sa + 1);
            assert(((sb + 1) as u64) as int == sb + 1);
            // equal normalized pairs mean equal unordered endpoint sets
            assert((ta == sa && tb == sb) || (ta == sb && tb == sa));
            if ta == sa {
                assert(t == s);
            } else {
                assert(ta == sb && tb == sa);
                assert(t == sn);
                assert(tn == s);
                assert(false);
            }
        }
    }
}

/// A cell `i < j` of the cycle matrix is set exactly when some step of
/// the tour has the normalized pair `(i + 1, j + 1)`.
pub proof fn lemma_cyc_adj_step(order: Seq<int>, n: int, i: int, j: int)
    requires
        ham_order(order, n),
        3 <= n <= MAX_VERTICES as int,
        0 <= i < j < n,
    ensures
        cyc_adj(order, i, j) <==> exists|t: int|
            0 <= t < n && #[trigger] step_pair(order, n, t) == (((i + 1) as u64, (j + 1) as u64)),
{
    if cyc_adj(order, i, j) {
        if crate::tour::path_adj(order, i, j) {
            let t = choose|t: int|
                0 <= t < order.len() - 1 && ((#[trigger] order[t] == i && order[t + 1] == j) || (
                order[t] == j && order[t + 1] == i));
            assert(step_pair(order, n, t) == (((i + 1) as u64, (j + 1) as u64)));
        } else {
            assert(step_pair(order, n, n - 1) == (((i + 1) as u64, (j + 1) as u64)));
        }
    }
    if exists|t: int|
        0 <= t < n && #[trigger] step_pair(order, n, t) == (((i + 1) as u64, (j + 1) as u64)) {
        let t = choose|t: int|
            0 <= t < n && #[trigger] step_pair(order, n, t) == (((i + 1) as u64, (j + 1) as u64));
        let tn: int = if t == n - 1 { 0int } else { t + 1 };
        assert(tn != t);
        assert(0 <= order[t] < n && 0 <= order[tn] < n);
        assert(order[t] != order[tn]);
        assert(((order[t] + 1) as u64) as int == order[t] + 1);
        assert(((order[tn] + 1) as u64) as int == order[tn] + 1);
        assert(((i + 1) as u64) as int == i + 1);
        assert(((j + 1) as u64) as int == j + 1);
        assert((order[t] == i && order[tn] == j) || (order[t] == j && order[tn] == i));
        if t == n - 1 {
            assert(cyc_adj(order, i, j));
        } else {
            assert(crate::tour::path_adj(order, i, j));
        }
    }
}

/// A sorted edge list that matches the cycle matrix of a Hamiltonian tour
/// has exactly `n` edges: one per vertex.
pub proof fn lemma_cycle_edge_count(order: Seq<int>, n: int, edges: Seq<(u64, u64)>)
    requires
        ham_order(order, n),
        3 <= n <= MAX_VERTICES as int,
        pairs_in_range(edges, n),
        pairs_sorted(edges),
        pairs_match(edges, cycle_matrix(order, n), n),
    ensures
        edges.len() == n,
{
    let ps = step_pairs(order, n);
    lemma_step_pairs_distinct(order, n);
    assert(edges.no_duplicates()) by {
        assert forall|k1: int, k2: int|
            0 <= k1 < edges.len() && 0 <= k2 < edges.len() && k1 != k2 implies edges[k1]
            != edges[k2] by {
            if k1 < k2 {
                assert(pair_lt(edges[k1], edges[k2]));
            } else {
                assert(pair_lt(edges[k2], edges[k1]));
            }
        }
    }
    assert(edges.to_set() =~= ps.to_set()) by {
        assert forall|x: (u64, u64)| edges.to_set().contains(x) implies ps.to_set().contains(
            x,
        ) by {
            let k = choose|k: int| 0 <= k < edges.len() && edges[k] == x;
            let i = x.0 as int - 1;
            let j = x.1 as int - 1;
            assert(edges.contains(x));
            assert(cycle_matrix(order, n)[i][j] != 0);
            assert(cyc_adj(order, i, j));
            lemma_cyc_adj_step(order, n, i, j);
            let t = choose|t: int|
                0 <= t < n && #[trigger] step_pair(order, n, t) == (((i + 1) as u64, (j
                    + 1) as u64));
            assert(ps[t] == x);
            assert(ps.contains(x));
        }
        assert forall|x: (u64, u64)| ps.to_set().contains(x) implies edges.to_set().contains(
            x,
        ) by {
            let t = choose|t: int| 0 <= t < ps.len() && ps[t] == x;
            let tn: int = if t == n - 1 { 0int } else { t + 1 };
            assert(order[t] != order[tn]);
            let i: int = if order[t] < order[tn] { order[t] } else { order[tn] };
            let j: int = if order[t] < order[tn] { order[tn] } else { order[t] };
            assert(x == (((i + 1) as u64, (j + 1) as u64)));
            lemma_cyc_adj_step(order, n, i, j);
            assert(step_pair(order, n, t) == (((i + 1) as u64, (j + 1) as u64)));
            assert(cyc_adj(order, i, j));
            assert(cycle_matrix(order, n)[i][j] != 0);
            assert(edges.contains(x));
        }
    }
    edges.unique_seq_to_set();
    ps.unique_seq_to_set();
}

} // verus!
