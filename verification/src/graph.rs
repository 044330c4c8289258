//! The graph store: vertices placed on the canvas, the complete edge list
//! over them, and the derived adjacency matrix of rounded-down Euclidean
//! distances. Adding the `k`-th vertex appends one edge to each of the
//! `k - 1` earlier vertices and rebuilds the adjacency matrix from the full
//! edge list.

use vstd::prelude::*;
use crate::matrix::{
    mat, is_square, symmetric, zero_diagonal, entries_at_most, zero_matrix, mat_set,
};
use crate::numeric::{COORD_LIMIT, DIST_CAP, isqrt, is_isqrt};

verus! {

/// Most vertices the store accepts. Each round of the solver walks several
/// dense `n` by `n` matrices per ant, so the cap keeps every weight sum far
/// from overflow and the per-tick work bounded.
pub const MAX_VERTICES: usize = 500;

/// A placed vertex. Ids are assigned sequentially from one and never reused
/// until a full reset.
#[derive(Clone, Copy, PartialEq, Eq, Debug)]
pub struct Vertex {
    pub id: u64,
    pub x: i64,
    pub y: i64,
}

/// An undirected edge between the vertices with ids `u` and `v` (`u > v`),
/// of weight the Euclidean distance between them, rounded down, fixed at
/// creation time.
#[derive(Clone, Copy, PartialEq, Eq, Debug)]
pub struct Edge {
    pub u: u64,
    pub v: u64,
    pub weight: u64,
}

/// A coordinate the store accepts.
pub open spec fn coord_ok(c: int) -> bool {
    -COORD_LIMIT <= c <= COORD_LIMIT
}

pub open spec fn sq(x: int) -> int {
    x * x
}

/// Squared Euclidean distance between two vertices.
pub open spec fn dist_sq(a: Vertex, b: Vertex) -> int {
    sq(a.x - b.x) + sq(a.y - b.y)
}

/// `w` is the Euclidean distance between `a` and `b`, rounded down.
pub open spec fn is_edge_weight(a: Vertex, b: Vertex, w: int) -> bool {
    &&& 0 <= w
    &&& sq(w) <= dist_sq(a, b)
    &&& dist_sq(a, b) < sq(w + 1)
}

/// `0 + 1 + ... + (k - 1)`: the number of edges of a complete graph on `k`
/// vertices.
pub open spec fn tri(k: int) -> int
    decreases k,
{
    if k <= 0 {
        0
    } else {
        tri(k - 1) + (k - 1)
    }
}

/// Position of the edge `(u, v)` (`u > v`, ids) in the edge list: the edges
/// of vertex `u` start after the `tri(u - 1)` edges of earlier vertices.
pub open spec fn eidx(u: int, v: int) -> int {
    tri(u - 1) + v - 1
}

/// The vertex stored at position `k` has id `k + 1` and in-range
/// coordinates.
pub open spec fn vertex_ok(verts: Seq<Vertex>, k: int) -> bool {
    &&& verts[k].id == k + 1
    &&& coord_ok(verts[k].x as int)
    &&& coord_ok(verts[k].y as int)
}

/// The edge stored at position `eidx(u, v)` joins ids `u` and `v` and
/// carries their Euclidean distance.
pub open spec fn edge_matches(edges: Seq<Edge>, verts: Seq<Vertex>, u: int, v: int) -> bool {
    let e = edges[eidx(u, v)];
    &&& e.u == u
    &&& e.v == v
    &&& is_edge_weight(verts[u - 1], verts[v - 1], e.weight as int)
    &&& e.weight < DIST_CAP
}

/// `tri` is monotone.
pub proof fn lemma_tri_monotonic(a: int, b: int)
    requires
        a <= b,
    ensures
        tri(a) <= tri(b),
    decreases b,
{
    if a < b && b > 0 {
        lemma_tri_monotonic(a, b - 1);
    }
}

/// The closed form of `tri`: twice the edge count of a complete graph on
/// `k` vertices is `k * (k - 1)`.
pub proof fn lemma_tri_closed_form(k: int)
    requires
        0 <= k,
    ensures
        2 * tri(k) == k * (k - 1),
    decreases k,
{
    if k > 0 {
        lemma_tri_closed_form(k - 1);
        assert(tri(k) == tri(k - 1) + (k - 1));
        assert(2 * tri(k - 1) == (k - 1) * (k - 2));
        assert((k - 1) * (k - 2) + 2 * (k - 1) == k * (k - 1)) by (nonlinear_arith);
        assert(2 * tri(k) == k * (k - 1));
    } else {
        assert(tri(k) == 0);
        assert(k == 0);
    }
}

/// Every in-range pair index lands inside the edge list.
pub proof fn lemma_eidx_range(u: int, v: int, n: int)
    requires
        2 <= u <= n,
        1 <= v < u,
    ensures
        0 <= tri(u - 1) <= eidx(u, v) < tri(u) <= tri(n),
{
    assert(tri(0) == 0);
    assert(tri(1) == tri(0) + 0);
    lemma_tri_monotonic(1, u - 1);
    lemma_tri_monotonic(u, n);
}

/// The Euclidean distance does not depend on the order of its endpoints.
pub proof fn lemma_edge_weight_symmetric(a: Vertex, b: Vertex, w: int)
    ensures
        is_edge_weight(a, b, w) <==> is_edge_weight(b, a, w),
{
    assert(sq(a.x - b.x) == sq(b.x - a.x)) by (nonlinear_arith);
    assert(sq(a.y - b.y) == sq(b.y - a.y)) by (nonlinear_arith);
}

/// Both mirror entries of the pair of matrix indices `(p, q)` (`q < p`)
/// hold the weight of the edge joining ids `p + 1` and `q + 1`.
pub open spec fn pair_done(m: Seq<Seq<u64>>, edges: Seq<Edge>, p: int, q: int) -> bool {
    &&& m[p][q] == edges[eidx(p + 1, q + 1)].weight
    &&& m[q][p] == edges[eidx(p + 1, q + 1)].weight
}

/// Both mirror entries of the pair of matrix indices `(p, q)` are zero.
pub open spec fn pair_zero(m: Seq<Seq<u64>>, p: int, q: int) -> bool {
    &&& m[p][q] == 0
    &&& m[q][p] == 0
}

/// The graph store.
pub struct GraphStore {
    pub vertices: Vec<Vertex>,
    pub edges: Vec<Edge>,
    pub adjacency: Vec<Vec<u64>>,
}

impl GraphStore {
    /// Number of placed vertices.
    pub open spec fn n(self) -> int {
        self.vertices@.len() as int
    }

    /// Well-formedness: sequential ids, in-range coordinates, one edge per
    /// unordered pair laid out in insertion order, and an adjacency matrix
    /// that is square, symmetric, zero on the diagonal and holds the
    /// Euclidean distance of every pair.
    pub open spec fn wf(self) -> bool {
        let n = self.n();
        &&& n <= MAX_VERTICES as int
        &&& forall|k: int| 0 <= k < n ==> #[trigger] vertex_ok(self.vertices@, k)
        &&& self.edges@.len() == tri(n)
        &&& forall|u: int, v: int|
            2 <= u <= n && 1 <= v < u ==> #[trigger] edge_matches(self.edges@, self.vertices@, u, v)
        &&& is_square(mat(self.adjacency), n)
        &&& symmetric(mat(self.adjacency))
        &&& zero_diagonal(mat(self.adjacency))
        &&& entries_at_most(mat(self.adjacency), (DIST_CAP - 1) as u64)
        &&& forall|i: int, j: int|
            0 <= i < j < n ==> is_edge_weight(
                self.vertices@[i],
                self.vertices@[j],
                #[trigger] mat(self.adjacency)[i][j] as int,
            )
    }

    /// An empty store.
    pub fn new() -> (g: GraphStore)
        ensures
            g.wf(),
            g.n() == 0,
            g.edges@.len() == 0,
            mat(g.adjacency).len() == 0,
    {
        GraphStore { vertices: Vec::new(), edges: Vec::new(), adjacency: Vec::new() }
    }

    /// Number of placed vertices.
    pub fn vertex_count(&self) -> (c: usize)
        ensures
            c == self.n(),
    {
        self.vertices.len()
    }

    /// Number of stored edges.
    pub fn edge_count(&self) -> (c: usize)
        ensures
            c == self.edges@.len(),
    {
        self.edges.len()
    }

    /// Clears vertices, edges and the adjacency matrix.
    pub fn reset(&mut self)
        ensures
            final(self).wf(),
            final(self).n() == 0,
            final(self).edges@.len() == 0,
            mat(final(self).adjacency).len() == 0,
    {
        self.vertices = Vec::new();
        self.edges = Vec::new();
        self.adjacency = Vec::new();
    }
}

/// Euclidean distance between two vertices, rounded down.
pub fn distance(a: Vertex, b: Vertex) -> (w: u64)
    requires
        coord_ok(a.x as int),
        coord_ok(a.y as int),
        coord_ok(b.x as int),
        coord_ok(b.y as int),
    ensures
        is_edge_weight(a, b, w as int),
        w < DIST_CAP,
{
    let dx: u64 = if a.x >= b.x {
        (a.x - b.x) as u64
    } else {
        (b.x - a.x) as u64
    };
    let dy: u64 = if a.y >= b.y {
        (a.y - b.y) as u64
    } else {
        (b.y - a.y) as u64
    };
    proof {
        assert(dx as int * dx as int == sq(a.x - b.x) && dx <= 2_000_000_000u64)
            by (nonlinear_arith)
            requires
                dx == if a.x >= b.x { a.x - b.x } else { b.x - a.x }
                    && -COORD_LIMIT <= a.x <= COORD_LIMIT
                    && -COORD_LIMIT <= b.x <= COORD_LIMIT;
        assert(dy as int * dy as int == sq(a.y - b.y) && dy <= 2_000_000_000u64)
            by (nonlinear_arith)
            requires
                dy == if a.y >= b.y { a.y - b.y } else { b.y - a.y }
                    && -COORD_LIMIT <= a.y <= COORD_LIMIT
                    && -COORD_LIMIT <= b.y <= COORD_LIMIT;
        assert(dx as int * dx as int <= 4_000_000_000_000_000_000)
            by (nonlinear_arith)
            requires
                dx <= 2_000_000_000u64;
        assert(dy as int * dy as int <= 4_000_000_000_000_000_000)
            by (nonlinear_arith)
            requires
                dy <= 2_000_000_000u64;
    }
    let s = dx * dx + dy * dy;
    proof {
        assert(s < DIST_CAP as int * DIST_CAP as int) by (nonlinear_arith)
            requires
                s <= 8_000_000_000_000_000_000u64;
    }
    isqrt(s)
}

impl GraphStore {
    /// Places a vertex, appends one edge from it to every earlier vertex,
    /// and rebuilds the adjacency matrix from the full edge list. Returns
    /// the new vertex's id. After `n` placements the edge count is
    /// `n * (n - 1) / 2`.
    pub fn add_vertex(&mut self, x: i64, y: i64) -> (id: u64)
        requires
            old(self).wf(),
            old(self).n() < MAX_VERTICES as int,
            coord_ok(x as int),
            coord_ok(y as int),
        ensures
            final(self).wf(),
            final(self).n() == old(self).n() + 1,
            id == old(self).n() + 1,
            final(self).vertices@ == old(self).vertices@.push(mk_vertex(id, x, y)),
            final(self).edges@.len() == old(self).edges@.len() + old(self).n(),
            forall|t: int|
                0 <= t < old(self).edges@.len() ==> final(self).edges@[t] == old(self).edges@[t],
            forall|t: int|
                old(self).edges@.len() <= t < final(self).edges@.len() ==> new_edge_ok(
                    #[trigger] final(self).edges@[t],
                    old(self).vertices@[t - old(self).edges@.len()],
                    mk_vertex(id, x, y),
                    t - old(self).edges@.len(),
                ),
            2 * final(self).edges@.len() == final(self).n() * (final(self).n() - 1),
            is_square(mat(final(self).adjacency), final(self).n()),
            symmetric(mat(final(self).adjacency)),
            zero_diagonal(mat(final(self).adjacency)),
    {
        let n = self.vertices.len();
        let id = (n as u64) + 1;
        let vnew = Vertex { id, x, y };
        self.vertices.push(vnew);
        proof {
            assert forall|k: int| 0 <= k < n + 1 implies #[trigger] vertex_ok(
                self.vertices@,
                k,
            ) by {
                if k < n {
                    assert(vertex_ok(old(self).vertices@, k));
                }
            }
        }

        // One new edge from the new vertex to every earlier vertex.
        let ghost old_edges = self.edges@;
        let mut i: usize = 0;
        while i < n
            invariant
                i <= n,
                self.vertices@ == old(self).vertices@.push(vnew),
                n + 1 == self.vertices@.len(),
                self.vertices@[n as int] == vnew,
                vnew.id == id,
                coord_ok(vnew.x as int),
                coord_ok(vnew.y as int),
                forall|k: int| 0 <= k < n + 1 ==> #[trigger] vertex_ok(self.vertices@, k),
                self.edges@.len() == old_edges.len() + i,
                forall|t: int| 0 <= t < old_edges.len() ==> self.edges@[t] == old_edges[t],
                forall|t: int|
                    old_edges.len() <= t < self.edges@.len() ==> new_edge_ok(
                        #[trigger] self.edges@[t],
                        self.vertices@[t - old_edges.len()],
                        vnew,
                        t - old_edges.len(),
                    ),
            decreases n - i,
        {
            proof {
                assert(vertex_ok(self.vertices@, i as int));
            }
            let a = self.vertices[i];
            let w = distance(a, vnew);
            self.edges.push(Edge { u: id, v: (i as u64) + 1, weight: w });
            i = i + 1;
        }

        // The extended edge list keeps the triangular layout, now for one
        // more vertex.
        proof {
            assert(self.edges@.len() == tri(n + 1));
            assert forall|u: int, v: int| 2 <= u <= n + 1 && 1 <= v < u implies #[trigger]
                edge_matches(self.edges@, self.vertices@, u, v) by {
                if u <= n {
                    lemma_eidx_range(u, v, n as int);
                    assert(edge_matches(old(self).edges@, old(self).vertices@, u, v));
                    assert(old_edges == old(self).edges@);
                    assert(old_edges.len() == tri(n as int));
                    assert(0 <= eidx(u, v) < old_edges.len());
                    assert(self.edges@[eidx(u, v)] == old_edges[eidx(u, v)]);
                    assert(self.edges@[eidx(u, v)] == old(self).edges@[eidx(u, v)]);
                } else {
                    assert(eidx(u, v) == old_edges.len() + (v - 1));
                    assert(new_edge_ok(
                        self.edges@[old_edges.len() + (v - 1)],
                        self.vertices@[v - 1],
                        vnew,
                        v - 1,
                    ));
                    lemma_edge_weight_symmetric(
                        self.vertices@[v - 1],
                        vnew,
                        self.edges@[eidx(u, v)].weight as int,
                    );
                }
            }
        }

        // Rebuild the adjacency matrix from the edge list, pair by pair in
        // edge-list order.
        self.rebuild_adjacency();

        proof {
            lemma_tri_closed_form(self.n());
        }
        id
    }

    /// Rebuilds the adjacency matrix from the edge list.
    fn rebuild_adjacency(&mut self)
        requires
            old(self).n() <= MAX_VERTICES as int,
            forall|k: int| 0 <= k < old(self).n() ==> #[trigger] vertex_ok(old(self).vertices@, k),
            old(self).edges@.len() == tri(old(self).n()),
            forall|u: int, v: int|
                2 <= u <= old(self).n() && 1 <= v < u
                    ==> #[trigger] edge_matches(old(self).edges@, old(self).vertices@, u, v),
        ensures
            final(self).wf(),
            final(self).vertices@ == old(self).vertices@,
            final(self).edges@ == old(self).edges@,
    {
        let n = self.vertices.len();
        let m = zero_matrix(n);
        self.adjacency = m;
        if n < 2 {
            proof {
                assert(tri(0) == 0);
                assert(tri(1) == tri(0) + 0);
            }
            return;
        }
        let mut t: usize = 0;
        let mut u: usize = 2;
        proof {
            assert(tri(0) == 0);
            assert(tri(1) == tri(0) + 0);
        }
        while u <= n
            invariant
                2 <= u <= n + 1,
                2 <= n,
                n == self.n(),
                n <= MAX_VERTICES,
                t == tri(u - 1),
                self.vertices@ == old(self).vertices@,
                self.edges@ == old(self).edges@,
                forall|k: int| 0 <= k < n ==> #[trigger] vertex_ok(self.vertices@, k),
                self.edges@.len() == tri(n as int),
                forall|a: int, b: int|
                    2 <= a <= n && 1 <= b < a
                        ==> #[trigger] edge_matches(self.edges@, self.vertices@, a, b),
                is_square(mat(self.adjacency), n as int),
                zero_diagonal(mat(self.adjacency)),
                entries_at_most(mat(self.adjacency), (DIST_CAP - 1) as u64),
                // pairs of fully processed rows hold the edge weight, both
                // ways round; later pairs are still zero
                forall|p: int, q: int|
                    0 <= q < p < n && p + 1 < u
                        ==> #[trigger] pair_done(mat(self.adjacency), self.edges@, p, q),
                forall|p: int, q: int|
                    0 <= q < p < n && p + 1 >= u ==> #[trigger] pair_zero(mat(self.adjacency), p, q),
            decreases n + 1 - u,
        {
            let mut vv: usize = 1;
            while vv < u
                invariant
                    2 <= u <= n,
                    1 <= vv <= u,
                    n == self.n(),
                    n <= MAX_VERTICES,
                    t == eidx(u as int, vv as int),
                    self.vertices@ == old(self).vertices@,
                    self.edges@ == old(self).edges@,
                    forall|k: int| 0 <= k < n ==> #[trigger] vertex_ok(self.vertices@, k),
                    self.edges@.len() == tri(n as int),
                    forall|a: int, b: int|
                        2 <= a <= n && 1 <= b < a
                            ==> #[trigger] edge_matches(self.edges@, self.vertices@, a, b),
                    is_square(mat(self.adjacency), n as int),
                    zero_diagonal(mat(self.adjacency)),
                    entries_at_most(mat(self.adjacency), (DIST_CAP - 1) as u64),
                    forall|p: int, q: int|
                        0 <= q < p < n && p + 1 < u
                            ==> #[trigger] pair_done(mat(self.adjacency), self.edges@, p, q),
                    // in the current row, pairs before column `vv - 1` are
                    // done, the rest still zero
                    forall|q: int|
                        0 <= q < vv - 1
                            ==> #[trigger] pair_done(mat(self.adjacency), self.edges@, u - 1, q),
                    forall|q: int|
                        vv - 1 <= q < u - 1 ==> #[trigger] pair_zero(mat(self.adjacency), u - 1, q),
                    forall|p: int, q: int|
                        0 <= q < p < n && p + 1 > u
                            ==> #[trigger] pair_zero(mat(self.adjacency), p, q),
                decreases u - vv,
            {
                proof {
                    lemma_eidx_range(u as int, vv as int, n as int);
                    assert(edge_matches(self.edges@, self.vertices@, u as int, vv as int));
                    vstd::std_specs::vec::axiom_spec_len(&self.edges);
                }
                let e = self.edges[t];
                let ghost m0 = mat(self.adjacency);
                mat_set(&mut self.adjacency, u - 1, vv - 1, e.weight);
                let ghost m1 = mat(self.adjacency);
                mat_set(&mut self.adjacency, vv - 1, u - 1, e.weight);
                proof {
                    let ghost m2 = mat(self.adjacency);
                    assert forall|p: int, q: int|
                        0 <= p < n && 0 <= q < n && !(p == u - 1 && q == vv - 1) && !(p == vv - 1
                            && q == u - 1) implies #[trigger] m2[p][q] == m0[p][q] by {
                        assert(m2[p][q] == m1[p][q]);
                    }
                    assert(m2[u - 1][vv - 1] == e.weight);
                    assert(m2[vv - 1][u - 1] == e.weight);
                    assert forall|p: int, q: int| 0 <= q < p < n && p + 1 < u implies #[trigger]
                        pair_done(m2, self.edges@, p, q) by {
                        assert(pair_done(m0, self.edges@, p, q));
                    }
                    assert forall|q: int| 0 <= q < vv implies #[trigger] pair_done(
                        m2,
                        self.edges@,
                        u - 1,
                        q,
                    ) by {
                        if q == vv - 1 {
                            assert(e == self.edges@[eidx(u as int, vv as int)]);
                        } else {
                            assert(pair_done(m0, self.edges@, u - 1, q));
                        }
                    }
                    assert forall|q: int| vv <= q < u - 1 implies #[trigger] pair_zero(
                        m2,
                        u - 1,
                        q,
                    ) by {
                        assert(pair_zero(m0, u - 1, q));
                    }
                    assert forall|p: int, q: int| 0 <= q < p < n && p + 1 > u implies #[trigger]
                        pair_zero(m2, p, q) by {
                        assert(pair_zero(m0, p, q));
                    }
                }
                t = t + 1;
                vv = vv + 1;
            }
            proof {
                assert(tri(u as int) == tri(u as int - 1) + (u - 1));
                assert forall|p: int, q: int| 0 <= q < p < n && p + 1 < u + 1 implies #[trigger]
                    pair_done(mat(self.adjacency), self.edges@, p, q) by {
                    if p == u - 1 {
                        assert(pair_done(mat(self.adjacency), self.edges@, u - 1, q));
                    }
                }
            }
            u = u + 1;
        }
        proof {
            assert forall|i: int, j: int|
                0 <= i < mat(self.adjacency).len() && 0 <= j < mat(self.adjacency).len() implies
                #[trigger] mat(self.adjacency)[i][j] == mat(self.adjacency)[j][i] by {
                if i < j {
                    assert(pair_done(mat(self.adjacency), self.edges@, j, i));
                }
                if j < i {
                    assert(pair_done(mat(self.adjacency), self.edges@, i, j));
                }
            }
            assert forall|i: int, j: int| 0 <= i < j < self.n() implies is_edge_weight(
                self.vertices@[i],
                self.vertices@[j],
                mat(self.adjacency)[i][j] as int,
            ) by {
                lemma_eidx_range(j + 1, i + 1, n as int);
                assert(edge_matches(self.edges@, self.vertices@, j + 1, i + 1));
                assert(pair_done(mat(self.adjacency), self.edges@, j, i));
                lemma_edge_weight_symmetric(
                    self.vertices@[j],
                    self.vertices@[i],
                    mat(self.adjacency)[i][j] as int,
                );
            }
        }
    }
}

/// `k` factorial.
pub open spec fn fact(k: nat) -> nat
    decreases k,
{
    if k == 0 {
        1
    } else {
        k * fact((k - 1) as nat)
    }
}

/// Number of distinct undirected Hamiltonian cycles on a complete graph of
/// `n` vertices: zero below three vertices, and `(n - 1)! / 2` from three
/// on (see `lemma_cycle_count_is_half_factorial`).
pub open spec fn cycle_count(n: int) -> int
    decreases n,
{
    if n < 3 {
        0
    } else if n == 3 {
        1
    } else {
        cycle_count(n - 1) * (n - 1)
    }
}

/// For `n >= 3` the cycle count equals `(n - 1)!` divided by two.
pub proof fn lemma_cycle_count_is_half_factorial(n: int)
    requires
        n >= 3,
    ensures
        2 * cycle_count(n) == fact((n - 1) as nat),
    decreases n,
{
    if n == 3 {
        reveal_with_fuel(fact, 3);
        assert(cycle_count(3) == 1);
        assert(fact(2) == 2);
    } else {
        lemma_cycle_count_is_half_factorial(n - 1);
        assert(cycle_count(n) == cycle_count(n - 1) * (n - 1));
        assert(fact((n - 1) as nat) == (n - 1) * fact((n - 2) as nat));
        assert(2 * (cycle_count(n - 1) * (n - 1)) == (2 * cycle_count(n - 1)) * (n - 1))
            by (nonlinear_arith);
        assert((2 * cycle_count(n - 1)) * (n - 1) == fact((n - 2) as nat) * (n - 1));
        assert(fact((n - 2) as nat) * (n - 1) == (n - 1) * fact((n - 2) as nat))
            by (nonlinear_arith);
    }
}

/// The cycle count is at least one from three vertices on.
pub proof fn lemma_cycle_count_pos(n: int)
    requires
        n >= 3,
    ensures
        cycle_count(n) >= 1,
    decreases n,
{
    if n > 3 {
        lemma_cycle_count_pos(n - 1);
        assert(cycle_count(n - 1) * (n - 1) >= 1) by (nonlinear_arith)
            requires
                cycle_count(n - 1) >= 1 && n - 1 >= 1;
    }
}

/// The cycle count never shrinks as vertices are added.
pub proof fn lemma_cycle_count_monotonic(a: int, b: int)
    requires
        3 <= a <= b,
    ensures
        cycle_count(a) <= cycle_count(b),
    decreases b,
{
    if a < b {
        lemma_cycle_count_monotonic(a, b - 1);
        lemma_cycle_count_pos(b - 1);
        assert(cycle_count(b - 1) <= cycle_count(b - 1) * (b - 1)) by (nonlinear_arith)
            requires
                cycle_count(b - 1) >= 1 && b - 1 >= 1;
    }
}

impl GraphStore {
    /// The number of distinct undirected Hamiltonian cycles the current
    /// vertices admit, for display: `(n - 1)! / 2` for `n >= 3`, zero
    /// below. `None` when the count exceeds `u128::MAX`.
    pub fn possible_cycle_count(&self) -> (r: Option<u128>)
        ensures
            cycle_count(self.n()) <= u128::MAX ==> r == Some(cycle_count(self.n()) as u128),
            cycle_count(self.n()) > u128::MAX ==> r is None,
    {
        let n = self.vertices.len();
        if n < 3 {
            return Some(0);
        }
        let mut acc: u128 = 1;
        let mut k: usize = 3;
        while k < n
            invariant
                3 <= k <= n,
                n == self.n(),
                acc == cycle_count(k as int),
            decreases n - k,
        {
            let f = k as u128;
            if acc > u128::MAX / f {
                proof {
                    let q = (u128::MAX as int) / (f as int);
                    vstd::arithmetic::div_mod::lemma_fundamental_div_mod(
                        u128::MAX as int,
                        f as int,
                    );
                    assert((acc as int) * (f as int) > u128::MAX as int) by (nonlinear_arith)
                        requires
                            acc as int >= q + 1
                                && u128::MAX as int == (f as int) * q + u128::MAX as int % (
                            f as int)
                                && 0 <= u128::MAX as int % (f as int) < f as int;
                    assert(cycle_count(k as int + 1) == cycle_count(k as int) * (k as int));
                    assert(cycle_count(k as int + 1) > u128::MAX as int);
                    lemma_cycle_count_monotonic(k as int + 1, n as int);
                    assert(cycle_count(n as int) > u128::MAX as int);
                }
                return None;
            }
            proof {
                let q = (u128::MAX as int) / (f as int);
                vstd::arithmetic::div_mod::lemma_fundamental_div_mod(u128::MAX as int, f as int);
                assert((acc as int) * (f as int) <= u128::MAX as int) by (nonlinear_arith)
                    requires
                        acc as int <= q
                            && u128::MAX as int == (f as int) * q + u128::MAX as int % (f as int)
                            && 0 <= u128::MAX as int % (f as int)
                            && f as int >= 1;
            }
            acc = acc * f;
            k = k + 1;
        }
        Some(acc)
    }
}

/// The vertex that a placement at `(x, y)` creates.
pub open spec fn mk_vertex(id: u64, x: i64, y: i64) -> Vertex {
    Vertex { id, x, y }
}

/// The edge appended for prior vertex `k` (zero-based) when a new vertex is
/// placed: it joins the new id to `k + 1` and carries their distance.
pub open spec fn new_edge_ok(e: Edge, prior: Vertex, vnew: Vertex, k: int) -> bool {
    &&& e.u == vnew.id
    &&& e.v == k + 1
    &&& is_edge_weight(prior, vnew, e.weight as int)
    &&& e.weight < DIST_CAP
}

} // verus!
