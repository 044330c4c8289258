//! The tour constructor: each ant starts at the first vertex, repeatedly
//! samples the next vertex among the unvisited ones — weighted by pheromone
//! and reciprocal distance — and finally closes the cycle back to the
//! start. The incidence matrix and length of the resulting tour are pinned
//! to the ghost visiting order.

use vstd::prelude::*;
use vstd::arithmetic::power::pow;
use vstd::math::min;
use crate::matrix::{
    mat, is_square, symmetric, zero_diagonal, entries_at_most, zero_matrix, mat_set, mat_get,
};
use crate::numeric::{DIST_CAP, WEIGHT_CAP, pow_capped};
use crate::graph::MAX_VERTICES;
use crate::sampling::{sample_weighted, desirability, desirability_weight};

verus! {

/// `order` visits every vertex of `0 .. n` exactly once, starting at
/// vertex zero.
pub open spec fn ham_order(order: Seq<int>, n: int) -> bool {
    &&& order.len() == n
    &&& n >= 1
    &&& order[0] == 0
    &&& forall|t: int| 0 <= t < n ==> 0 <= #[trigger] order[t] < n
    &&& order.no_duplicates()
}

/// `i` and `j` are joined by a step of the (open) path `order`.
pub open spec fn path_adj(order: Seq<int>, i: int, j: int) -> bool {
    exists|t: int|
        0 <= t < order.len() - 1 && ((#[trigger] order[t] == i && order[t + 1] == j) || (order[t]
            == j && order[t + 1] == i))
}

/// `i` and `j` are joined by a step of the closed tour `order`: a path
/// step, or the closing edge from the last vertex back to the first.
pub open spec fn cyc_adj(order: Seq<int>, i: int, j: int) -> bool {
    ||| path_adj(order, i, j)
    ||| (order.len() >= 2 && ((order[order.len() - 1] == i && order[0] == j) || (order[order.len()
        - 1] == j && order[0] == i)))
}

/// Incidence matrix of the open path `order`: one at the entries of path
/// steps, zero elsewhere.
pub open spec fn path_matrix(order: Seq<int>, n: int) -> Seq<Seq<u64>> {
    Seq::new(
        n as nat,
        |i: int| Seq::new(n as nat, |j: int| if path_adj(order, i, j) { 1u64 } else { 0u64 }),
    )
}

/// Incidence matrix of the closed tour `order`.
pub open spec fn cycle_matrix(order: Seq<int>, n: int) -> Seq<Seq<u64>> {
    Seq::new(
        n as nat,
        |i: int| Seq::new(n as nat, |j: int| if cyc_adj(order, i, j) { 1u64 } else { 0u64 }),
    )
}

/// Total weight of the steps of the open path `order` under `adj`.
pub open spec fn path_len(order: Seq<int>, adj: Seq<Seq<u64>>) -> int
    decreases order.len(),
{
    if order.len() <= 1 {
        0
    } else {
        path_len(order.drop_last(), adj) + adj[order[order.len() - 2]][order[order.len() - 1]]
    }
}

/// Total weight of the closed tour `order` under `adj`: the path weight
/// plus the closing edge.
pub open spec fn cycle_len(order: Seq<int>, adj: Seq<Seq<u64>>) -> int {
    path_len(order, adj) + if order.len() >= 2 {
        adj[order[order.len() - 1]][order[0]] as int
    } else {
        0
    }
}

/// One ant's tour: the incidence matrix of the edges it walked and the
/// total length, together with the visiting order as ghost data.
pub struct AntTour {
    pub incidence: Vec<Vec<u64>>,
    pub length: u64,
    pub order: Ghost<Seq<int>>,
}

/// A well-formed tour over `n` vertices and the adjacency matrix `adj`:
/// its order is Hamiltonian, its incidence matrix is exactly the cycle of
/// that order, and its length is the cycle's weight.
pub open spec fn tour_wf(tour: AntTour, n: int, adj: Seq<Seq<u64>>) -> bool {
    &&& ham_order(tour.order@, n)
    &&& mat(tour.incidence) == cycle_matrix(tour.order@, n)
    &&& tour.length == cycle_len(tour.order@, adj)
}

/// Some unvisited candidate sits at distance zero from the current
/// vertex, so the reciprocal-distance term is undefined there.
pub open spec fn has_zero_edge(adj: Seq<Seq<u64>>, unvisited: Seq<usize>, cur: int) -> bool {
    exists|k: int| 0 <= k < unvisited.len() && adj[#[trigger] unvisited[k] as int][cur] == 0
}

/// The sampling weight of moving from `cur` to the unvisited candidate
/// `cand`. When a zero-distance candidate exists (and the distance term
/// matters at all), those candidates dominate: they get weight one and
/// everything else zero. With beta zero the distance term is constant one
/// and only pheromone counts. Otherwise the weight is the capped
/// fixed-point desirability.
pub open spec fn trans_weight(
    adj: Seq<Seq<u64>>,
    pher: Seq<Seq<u64>>,
    cur: int,
    cand: int,
    alpha: u64,
    beta: u64,
    dominant: bool,
) -> int {
    if beta >= 1 && dominant {
        if adj[cand][cur] == 0 {
            1
        } else {
            0
        }
    } else if beta == 0 {
        min(pow(pher[cand][cur] as int, alpha as nat), WEIGHT_CAP as int)
    } else {
        desirability(pher[cand][cur], adj[cand][cur], alpha, beta)
    }
}

/// The sampling weights of all unvisited candidates from `current`.
pub fn transition_weights(
    adj: &Vec<Vec<u64>>,
    pher: &Vec<Vec<u64>>,
    unvisited: &Vec<usize>,
    current: usize,
    alpha: u64,
    beta: u64,
    n: usize,
) -> (w: Vec<u64>)
    requires
        is_square(mat(*adj), n as int),
        is_square(mat(*pher), n as int),
        entries_at_most(mat(*adj), (DIST_CAP - 1) as u64),
        current < n,
        forall|k: int| 0 <= k < unvisited@.len() ==> #[trigger] unvisited@[k] < n,
    ensures
        w@.len() == unvisited@.len(),
        forall|k: int|
            0 <= k < w@.len() ==> #[trigger] w@[k] as int == trans_weight(
                mat(*adj),
                mat(*pher),
                current as int,
                unvisited@[k] as int,
                alpha,
                beta,
                has_zero_edge(mat(*adj), unvisited@, current as int),
            ),
        forall|k: int| 0 <= k < w@.len() ==> #[trigger] w@[k] <= WEIGHT_CAP,
{
    let mut dominant = false;
    let mut j: usize = 0;
    proof {
        assert(unvisited@.take(0) =~= Seq::<usize>::empty());
        assert(!has_zero_edge(mat(*adj), unvisited@.take(0), current as int));
    }
    while j < unvisited.len()
        invariant
            j <= unvisited@.len(),
            is_square(mat(*adj), n as int),
            current < n,
            forall|k: int| 0 <= k < unvisited@.len() ==> #[trigger] unvisited@[k] < n,
            dominant == has_zero_edge(mat(*adj), unvisited@.take(j as int), current as int),
        decreases unvisited@.len() - j,
    {
        let c = unvisited[j];
        let a = mat_get(adj, c, current);
        proof {
            assert(unvisited@.take(j as int + 1).drop_last() =~= unvisited@.take(j as int));
            assert(unvisited@.take(j as int + 1)[j as int] == unvisited@[j as int]);
        }
        if a == 0 {
            dominant = true;
            proof {
                let uv = unvisited@.take(j as int + 1);
                assert(uv[j as int] == unvisited@[j as int]);
                assert(has_zero_edge(mat(*adj), uv, current as int));
            }
        } else {
            proof {
                let uv = unvisited@.take(j as int + 1);
                let prev = unvisited@.take(j as int);
                if dominant {
                    let kk = choose|kk: int|
                        0 <= kk < prev.len() && mat(*adj)[prev[kk] as int][current as int] == 0;
                    assert(uv[kk] == prev[kk]);
                    assert(has_zero_edge(mat(*adj), uv, current as int));
                } else {
                    assert forall|k: int|
                        0 <= k < uv.len() && mat(*adj)[uv[k] as int][current as int] == 0 implies
                        false by {
                        if k < j {
                            assert(prev[k] == uv[k]);
                            assert(has_zero_edge(mat(*adj), prev, current as int));
                        } else {
                            assert(uv[k] == unvisited@[j as int]);
                            assert(mat(*adj)[uv[k] as int][current as int] == a);
                        }
                    }
                }
            }
        }
        j = j + 1;
    }
    proof {
        assert(unvisited@.take(unvisited@.len() as int) =~= unvisited@);
    }

    let ghost dom = has_zero_edge(mat(*adj), unvisited@, current as int);
    let mut w: Vec<u64> = Vec::new();
    let mut k: usize = 0;
    while k < unvisited.len()
        invariant
            k <= unvisited@.len(),
            w@.len() == k,
            is_square(mat(*adj), n as int),
            is_square(mat(*pher), n as int),
            entries_at_most(mat(*adj), (DIST_CAP - 1) as u64),
            current < n,
            forall|t: int| 0 <= t < unvisited@.len() ==> #[trigger] unvisited@[t] < n,
            dominant == dom,
            dom == has_zero_edge(mat(*adj), unvisited@, current as int),
            forall|t: int|
                0 <= t < k ==> #[trigger] w@[t] as int == trans_weight(
                    mat(*adj),
                    mat(*pher),
                    current as int,
                    unvisited@[t] as int,
                    alpha,
                    beta,
                    dom,
                ),
            forall|t: int| 0 <= t < k ==> #[trigger] w@[t] <= WEIGHT_CAP,
        decreases unvisited@.len() - k,
    {
        let c = unvisited[k];
        let p = mat_get(pher, c, current);
        let a = mat_get(adj, c, current);
        let wt: u64;
        if beta >= 1 && dominant {
            wt = if a == 0 {
                1
            } else {
                0
            };
        } else if beta == 0 {
            wt = pow_capped(p, alpha);
        } else {
            proof {
                if a == 0 {
                    assert(has_zero_edge(mat(*adj), unvisited@, current as int));
                }
            }
            wt = desirability_weight(p, a, alpha, beta);
        }
        w.push(wt);
        k = k + 1;
    }
    w
}

/// Appending a vertex to a path adds exactly the step from the old last
/// vertex to the new one.
pub proof fn lemma_path_adj_push(order: Seq<int>, nx: int, i: int, j: int)
    requires
        order.len() >= 1,
    ensures
        path_adj(order.push(nx), i, j) <==> (path_adj(order, i, j) || (i == order.last() && j
            == nx) || (i == nx && j == order.last())),
{
    let po = order.push(nx);
    let ll = order.len() as int;
    if path_adj(po, i, j) {
        let t = choose|t: int|
            0 <= t < po.len() - 1 && ((#[trigger] po[t] == i && po[t + 1] == j) || (po[t] == j
                && po[t + 1] == i));
        if t < ll - 1 {
            assert(po[t] == order[t]);
            assert(po[t + 1] == order[t + 1]);
            assert(path_adj(order, i, j));
        } else {
            assert(t == ll - 1);
            assert(po[t] == order[ll - 1]);
            assert(po[t + 1] == nx);
        }
    }
    if path_adj(order, i, j) {
        let t = choose|t: int|
            0 <= t < order.len() - 1 && ((#[trigger] order[t] == i && order[t + 1] == j) || (
            order[t] == j && order[t + 1] == i));
        assert(po[t] == order[t]);
        assert(po[t + 1] == order[t + 1]);
        assert(path_adj(po, i, j));
    }
    if (i == order.last() && j == nx) || (i == nx && j == order.last()) {
        assert(po[ll - 1] == order[ll - 1]);
        assert(po[ll] == nx);
        assert(path_adj(po, i, j));
    }
}

/// Number of non-zero entries of a row.
pub open spec fn count_ones(row: Seq<u64>) -> int
    decreases row.len(),
{
    if row.len() == 0 {
        0
    } else {
        count_ones(row.drop_last()) + if row.last() != 0 {
            1int
        } else {
            0int
        }
    }
}

/// Number of edges at vertex `v` of an incidence matrix.
pub open spec fn degree(m: Seq<Seq<u64>>, v: int) -> int {
    count_ones(m[v])
}

/// Sum of the degrees of the first `k` vertices.
pub open spec fn degree_total(m: Seq<Seq<u64>>, k: int) -> int
    decreases k,
{
    if k <= 0 {
        0
    } else {
        degree_total(m, k - 1) + degree(m, k - 1)
    }
}

/// A row that is one exactly at two distinct places below `m` has count
/// one for each place that lies below its length.
pub proof fn lemma_count_ones_two(row: Seq<u64>, a: int, b: int)
    requires
        0 <= a,
        0 <= b,
        a != b,
        forall|j: int| 0 <= j < row.len() ==> #[trigger] row[j] == if j == a || j == b { 1u64 } else { 0u64 },
    ensures
        count_ones(row) == (if a < row.len() { 1int } else { 0int }) + (if b < row.len() { 1int } else { 0int }),
    decreases row.len(),
{
    if row.len() > 0 {
        let rest = row.drop_last();
        assert(forall|j: int| 0 <= j < rest.len() ==> rest[j] == row[j]);
        lemma_count_ones_two(rest, a, b);
    }
}

/// A Hamiltonian order covers every vertex below `n`.
pub proof fn lemma_ham_order_onto(order: Seq<int>, n: int, v: int)
    requires
        ham_order(order, n),
        0 <= v < n,
    ensures
        order.contains(v),
{
    if !order.contains(v) {
        order.unique_seq_to_set();
        let range = vstd::set_lib::set_int_range(0, n);
        vstd::set_lib::lemma_int_range(0, n);
        assert(order.to_set().subset_of(range)) by {
            assert forall|x: int| order.to_set().contains(x) implies range.contains(x) by {
                let t = choose|t: int| 0 <= t < order.len() && #[trigger] order[t] == x;
                assert(0 <= order[t] < n);
            }
        }
        assert(!order.to_set().contains(v));
        order.to_set().lemma_subset_not_in_lt(range, v);
        assert(false);
    }
}

/// In a Hamiltonian tour of at least three vertices, the tour neighbors of
/// `v` are exactly the entries on either side of its unique position, and
/// they are two distinct vertices different from `v`.
pub proof fn lemma_cycle_neighbors(order: Seq<int>, n: int, v: int) -> (ab: (int, int))
    requires
        ham_order(order, n),
        n >= 3,
        0 <= v < n,
    ensures
        ({
            let (a, b) = ab;
            &&& a != b
            &&& a != v
            &&& b != v
            &&& 0 <= a < n
            &&& 0 <= b < n
            &&& forall|j: int| cyc_adj(order, v, j) <==> (j == a || j == b)
        }),
{
    lemma_ham_order_onto(order, n, v);
    let s = choose|s: int| 0 <= s < order.len() && #[trigger] order[s] == v;
    let sp = if s == 0 { n - 1 } else { s - 1 };
    let sn = if s == n - 1 { 0 } else { s + 1 };
    let a = order[sp];
    let b = order[sn];
    assert(sp != sn);
    assert(sp != s);
    assert(sn != s);
    assert forall|j: int| cyc_adj(order, v, j) implies (j == a || j == b) by {
        if path_adj(order, v, j) {
            let t = choose|t: int|
                0 <= t < order.len() - 1 && ((#[trigger] order[t] == v && order[t + 1] == j) || (
                order[t] == j && order[t + 1] == v));
            if order[t] == v && order[t + 1] == j {
                assert(t == s);
                assert(sn == s + 1);
            } else {
                assert(t + 1 == s);
                assert(sp == s - 1);
            }
        } else {
            if order[order.len() - 1] == v && order[0] == j {
                assert(s == n - 1);
                assert(sn == 0);
            } else {
                assert(s == 0);
                assert(sp == n - 1);
            }
        }
    }
    assert forall|j: int| (j == a || j == b) implies cyc_adj(order, v, j) by {
        if j == b {
            if s < n - 1 {
                assert(order[s] == v && order[s + 1] == b);
                assert(path_adj(order, v, b));
            } else {
                assert(order[order.len() - 1] == v && order[0] == b);
            }
        }
        if j == a {
            if s >= 1 {
                assert(order[sp] == a && order[sp + 1] == v);
                assert(path_adj(order, v, a));
            } else {
                assert(order[order.len() - 1] == a && order[0] == v);
            }
        }
    }
    (a, b)
}

/// Every vertex of a Hamiltonian tour has exactly two incident edges in
/// the tour's incidence matrix.
pub proof fn lemma_cycle_degrees(order: Seq<int>, n: int)
    requires
        ham_order(order, n),
        n >= 3,
    ensures
        forall|v: int| 0 <= v < n ==> #[trigger] degree(cycle_matrix(order, n), v) == 2,
        zero_diagonal(cycle_matrix(order, n)),
{
    let m = cycle_matrix(order, n);
    assert forall|v: int| 0 <= v < n implies #[trigger] degree(m, v) == 2 by {
        let ab = lemma_cycle_neighbors(order, n, v);
        let (a, b) = ab;
        let row = m[v];
        assert(forall|j: int| 0 <= j < row.len() ==> #[trigger] row[j] == if j == a || j == b { 1u64 } else { 0u64 });
        lemma_count_ones_two(row, a, b);
    }
    assert forall|v: int| 0 <= v < m.len() implies #[trigger] m[v][v] == 0 by {
        let ab = lemma_cycle_neighbors(order, n, v);
    }
}

/// If every vertex has degree two, the degree total of the first `k` rows
/// is `2 k`.
pub proof fn lemma_degree_total(m: Seq<Seq<u64>>, k: int)
    requires
        forall|v: int| 0 <= v < k ==> #[trigger] degree(m, v) == 2,
    ensures
        degree_total(m, k) == if k >= 0 { 2 * k } else { 0 },
    decreases k,
{
    if k > 0 {
        lemma_degree_total(m, k - 1);
    }
}

/// Builds one ant tour: starting at vertex zero, repeatedly samples the
/// next vertex among the unvisited ones using the transition weights, then
/// closes the cycle back to the start. The result is a valid Hamiltonian
/// tour whatever the random draws returned; in particular zero-weight
/// edges (coincident vertices) never fault and still yield a valid tour.
pub fn construct_tour(
    adj: &Vec<Vec<u64>>,
    pher: &Vec<Vec<u64>>,
    alpha: u64,
    beta: u64,
    n: usize,
) -> (tour: AntTour)
    requires
        3 <= n <= MAX_VERTICES,
        is_square(mat(*adj), n as int),
        is_square(mat(*pher), n as int),
        entries_at_most(mat(*adj), (DIST_CAP - 1) as u64),
    ensures
        tour_wf(tour, n as int, mat(*adj)),
        is_square(mat(tour.incidence), n as int),
        symmetric(mat(tour.incidence)),
        zero_diagonal(mat(tour.incidence)),
        forall|v: int| 0 <= v < n ==> #[trigger] degree(mat(tour.incidence), v) == 2,
        degree_total(mat(tour.incidence), n as int) == 2 * n,
        tour.length <= n as int * DIST_CAP as int,
{
    let mut incidence = zero_matrix(n);
    let mut unvisited: Vec<usize> = Vec::new();
    let mut v: usize = 1;
    while v < n
        invariant
            1 <= v <= n,
            unvisited@.len() == v - 1,
            forall|k: int| 0 <= k < unvisited@.len() ==> #[trigger] unvisited@[k] == k + 1,
        decreases n - v,
    {
        unvisited.push(v);
        v = v + 1;
    }
    let ghost mut order: Seq<int> = seq![0int];
    let mut current: usize = 0;
    let mut length: u64 = 0;
    proof {
        assert(forall|k: int|
            0 <= k < unvisited@.len() ==> 1 <= #[trigger] unvisited@[k] < n);
        assert(unvisited@.no_duplicates());
        assert(forall|t: int, k: int|
            0 <= t < order.len() && 0 <= k < unvisited@.len() ==> #[trigger] order[t] != (
            #[trigger] unvisited@[k]) as int);
        assert(mat(incidence) =~~= path_matrix(order, n as int)) by {
            assert forall|i: int, j: int| 0 <= i < n && 0 <= j < n implies !path_adj(
                order,
                i,
                j,
            ) by {
                if path_adj(order, i, j) {
                    let t = choose|t: int|
                        0 <= t < order.len() - 1 && ((#[trigger] order[t] == i && order[t + 1]
                            == j) || (order[t] == j && order[t + 1] == i));
                }
            }
        }
    }
    while unvisited.len() > 0
        invariant
            3 <= n <= MAX_VERTICES,
            is_square(mat(*adj), n as int),
            is_square(mat(*pher), n as int),
            entries_at_most(mat(*adj), (DIST_CAP - 1) as u64),
            1 <= order.len() <= n,
            order.len() + unvisited@.len() == n,
            order[0] == 0,
            forall|t: int| 0 <= t < order.len() ==> 0 <= #[trigger] order[t] < n,
            order.no_duplicates(),
            unvisited@.no_duplicates(),
            forall|k: int| 0 <= k < unvisited@.len() ==> #[trigger] unvisited@[k] < n,
            forall|t: int, k: int|
                0 <= t < order.len() && 0 <= k < unvisited@.len() ==> #[trigger] order[t] != (
                #[trigger] unvisited@[k]) as int,
            current < n,
            current as int == order.last(),
            mat(incidence) == path_matrix(order, n as int),
            length == path_len(order, mat(*adj)),
            length <= (order.len() - 1) * (DIST_CAP as int),
        decreases unvisited@.len(),
    {
        let w = transition_weights(adj, pher, &unvisited, current, alpha, beta, n);
        let idx = sample_weighted(&w);
        let nx = unvisited[idx];
        let ghost old_unvisited = unvisited@;
        let ghost old_order = order;
        let ghost old_mat = mat(incidence);
        unvisited.remove(idx);
        let wt = mat_get(adj, current, nx);
        proof {
            // the new vertex is fresh for the order
            assert(forall|t: int|
                0 <= t < old_order.len() ==> #[trigger] old_order[t] != nx as int);
        }
        length = length + wt;
        mat_set(&mut incidence, current, nx, 1);
        mat_set(&mut incidence, nx, current, 1);
        proof {
            order = old_order.push(nx as int);
            // order bookkeeping
            assert(order.no_duplicates()) by {
                assert forall|i: int, j: int|
                    0 <= i < order.len() && 0 <= j < order.len() && i != j implies order[i]
                    != order[j] by {
                    if i < order.len() - 1 && j < order.len() - 1 {
                        assert(old_order[i] != old_order[j]);
                    }
                }
            }
            // unvisited bookkeeping
            assert(unvisited@ == old_unvisited.subrange(0, idx as int) + old_unvisited.subrange(
                idx as int + 1,
                old_unvisited.len() as int,
            ));
            assert forall|k: int| 0 <= k < unvisited@.len() implies (#[trigger] unvisited@[k]
                == if k < idx as int {
                old_unvisited[k]
            } else {
                old_unvisited[k + 1]
            }) by {}
            assert(unvisited@.no_duplicates());
            assert forall|t: int, k: int|
                0 <= t < order.len() && 0 <= k < unvisited@.len() implies #[trigger] order[t] != (
                #[trigger] unvisited@[k]) as int by {
                let kk: int = if k < idx as int { k } else { k + 1 };
                assert(unvisited@[k] == old_unvisited[kk]);
                if t < order.len() - 1 {
                    assert(old_order[t] != old_unvisited[kk] as int);
                } else {
                    assert(order[t] == nx as int);
                    assert(old_unvisited[idx as int] != old_unvisited[kk]);
                }
            }
            // incidence bookkeeping
            assert(mat(incidence) =~~= path_matrix(order, n as int)) by {
                assert forall|i: int, j: int| 0 <= i < n && 0 <= j < n implies mat(
                    incidence,
                )[i][j] == path_matrix(order, n as int)[i][j] by {
                    lemma_path_adj_push(old_order, nx as int, i, j);
                    if (i == current as int && j == nx as int) || (i == nx as int && j
                        == current as int) {
                    } else {
                        assert(mat(incidence)[i][j] == old_mat[i][j]);
                        assert(old_mat[i][j] == path_matrix(old_order, n as int)[i][j]);
                    }
                }
            }
            // length bookkeeping
            assert(order.drop_last() =~= old_order);
            assert(path_len(order, mat(*adj)) == path_len(old_order, mat(*adj)) + mat(
                *adj,
            )[current as int][nx as int]);
        }
        current = nx;
    }
    // close the cycle back to the start vertex
    let ghost final_order = order;
    let wt = mat_get(adj, current, 0);
    length = length + wt;
    let ghost pre_close = mat(incidence);
    mat_set(&mut incidence, current, 0, 1);
    mat_set(&mut incidence, 0, current, 1);
    proof {
        assert(ham_order(final_order, n as int));
        assert(current as int == final_order[final_order.len() - 1]);
        assert(current != 0) by {
            assert(final_order[0] == 0);
            assert(final_order[final_order.len() - 1] != final_order[0]);
        }
        assert(mat(incidence) =~~= cycle_matrix(final_order, n as int)) by {
            assert forall|i: int, j: int| 0 <= i < n && 0 <= j < n implies mat(incidence)[i][j]
                == cycle_matrix(final_order, n as int)[i][j] by {
                if (i == current as int && j == 0) || (i == 0 && j == current as int) {
                    assert(cyc_adj(final_order, i, j));
                } else {
                    assert(mat(incidence)[i][j] == pre_close[i][j]);
                    assert(pre_close[i][j] == path_matrix(final_order, n as int)[i][j]);
                    assert(cyc_adj(final_order, i, j) == path_adj(final_order, i, j));
                }
            }
        }
        lemma_cycle_degrees(final_order, n as int);
        lemma_degree_total(cycle_matrix(final_order, n as int), n as int);
        assert(symmetric(mat(incidence))) by {
            assert forall|i: int, j: int|
                0 <= i < mat(incidence).len() && 0 <= j < mat(incidence).len() implies #[trigger]
                mat(incidence)[i][j] == mat(incidence)[j][i] by {
                assert(cyc_adj(final_order, i, j) == cyc_adj(final_order, j, i));
            }
        }
    }
    AntTour { incidence, length, order: Ghost(order) }
}

/// Constructs one tour per ant for the current round, each ant
/// independently sampling against the same pheromone matrix.
pub fn release_ants(
    adj: &Vec<Vec<u64>>,
    pher: &Vec<Vec<u64>>,
    alpha: u64,
    beta: u64,
    number_of_ants: u64,
    n: usize,
) -> (tours: Vec<AntTour>)
    requires
        3 <= n <= MAX_VERTICES,
        is_square(mat(*adj), n as int),
        is_square(mat(*pher), n as int),
        entries_at_most(mat(*adj), (DIST_CAP - 1) as u64),
        number_of_ants >= 1,
    ensures
        tours@.len() == number_of_ants,
        forall|k: int| 0 <= k < tours@.len() ==> tour_wf(#[trigger] tours@[k], n as int, mat(*adj)),
        forall|k: int|
            0 <= k < tours@.len() ==> is_square(mat((#[trigger] tours@[k]).incidence), n as int)
                && symmetric(mat(tours@[k].incidence)) && zero_diagonal(mat(tours@[k].incidence)),
        forall|k: int|
            0 <= k < tours@.len() ==> forall|v: int|
                0 <= v < n ==> #[trigger] degree(mat((#[trigger] tours@[k]).incidence), v) == 2,
{
    let mut tours: Vec<AntTour> = Vec::new();
    let mut i: u64 = 0;
    while i < number_of_ants
        invariant
            i <= number_of_ants,
            tours@.len() == i,
            3 <= n <= MAX_VERTICES,
            is_square(mat(*adj), n as int),
            is_square(mat(*pher), n as int),
            entries_at_most(mat(*adj), (DIST_CAP - 1) as u64),
            forall|k: int|
                0 <= k < tours@.len() ==> tour_wf(#[trigger] tours@[k], n as int, mat(*adj)),
            forall|k: int|
                0 <= k < tours@.len() ==> is_square(
                    mat((#[trigger] tours@[k]).incidence),
                    n as int,
                ) && symmetric(mat(tours@[k].incidence)) && zero_diagonal(
                    mat(tours@[k].incidence),
                ),
            forall|k: int|
                0 <= k < tours@.len() ==> forall|v: int|
                    0 <= v < n ==> #[trigger] degree(mat((#[trigger] tours@[k]).incidence), v)
                        == 2,
        decreases number_of_ants - i,
    {
        let t = construct_tour(adj, pher, alpha, beta, n);
        tours.push(t);
        i = i + 1;
    }
    tours
}

} // verus!
