//! The pheromone updater. Each ant tour of the round is applied in order:
//! every matrix entry is first evaporated by the rate and then, where the
//! tour used the edge, reinforced by the pheromone constant divided by the
//! tour's length. Applying ants one after another — so that later ants
//! partially evaporate earlier deposits — mirrors the round's sequential
//! reinforcement and must not be batched.

use vstd::prelude::*;
use crate::matrix::{mat, is_square, symmetric, zero_diagonal, mat_get, mat_set};
use crate::params::EVAPORATION_DENOMINATOR;
use crate::tour::AntTour;

verus! {

/// What one tour deposits on each of its edges: the pheromone constant
/// divided by the tour length. A degenerate zero-length tour (all placed
/// vertices coincide) is the shortest possible and deposits the whole
/// constant.
pub open spec fn deposit_amount(q: u64, len: u64) -> int {
    if len > 0 {
        q as int / len as int
    } else {
        q as int
    }
}

/// One entry after applying one tour: the old value evaporated by
/// `rho / EVAPORATION_DENOMINATOR`, plus the deposit where the tour's
/// incidence is set, saturating at `u64::MAX`.
pub open spec fn updated_entry(p: u64, used: u64, q: u64, len: u64, rho: u64) -> u64 {
    let ev = (p as int) * ((EVAPORATION_DENOMINATOR - rho) as int) / (
    EVAPORATION_DENOMINATOR as int);
    let d = if used != 0 {
        deposit_amount(q, len)
    } else {
        0
    };
    if ev + d > u64::MAX as int {
        u64::MAX
    } else {
        (ev + d) as u64
    }
}

/// The whole matrix after applying one tour.
pub open spec fn apply_tour(
    m: Seq<Seq<u64>>,
    inc: Seq<Seq<u64>>,
    len: u64,
    q: u64,
    rho: u64,
) -> Seq<Seq<u64>> {
    Seq::new(
        m.len(),
        |i: int| Seq::new(m.len(), |j: int| updated_entry(m[i][j], inc[i][j], q, len, rho)),
    )
}

/// The matrix after applying a round's tours, first to last.
pub open spec fn apply_tours(m: Seq<Seq<u64>>, tours: Seq<AntTour>, q: u64, rho: u64) -> Seq<
    Seq<u64>,
>
    decreases tours.len(),
{
    if tours.len() == 0 {
        m
    } else {
        apply_tour(
            apply_tours(m, tours.drop_last(), q, rho),
            mat(tours.last().incidence),
            tours.last().length,
            q,
            rho,
        )
    }
}

/// Applying one symmetric tour to a symmetric matrix keeps it symmetric.
pub proof fn lemma_apply_tour_symmetric(
    m: Seq<Seq<u64>>,
    inc: Seq<Seq<u64>>,
    len: u64,
    q: u64,
    rho: u64,
    n: int,
)
    requires
        is_square(m, n),
        is_square(inc, n),
        symmetric(m),
        symmetric(inc),
    ensures
        is_square(apply_tour(m, inc, len, q, rho), n),
        symmetric(apply_tour(m, inc, len, q, rho)),
{
}

/// The pheromone matrix stays symmetric over any number of applied tours,
/// as long as every tour's incidence matrix is symmetric; its entries are
/// unsigned, hence never negative, and saturate at `u64::MAX`.
pub proof fn lemma_update_preserves_symmetry(
    m: Seq<Seq<u64>>,
    tours: Seq<AntTour>,
    q: u64,
    rho: u64,
    n: int,
)
    requires
        is_square(m, n),
        symmetric(m),
        forall|k: int|
            0 <= k < tours.len() ==> is_square(mat((#[trigger] tours[k]).incidence), n)
                && symmetric(mat(tours[k].incidence)),
    ensures
        is_square(apply_tours(m, tours, q, rho), n),
        symmetric(apply_tours(m, tours, q, rho)),
    decreases tours.len(),
{
    if tours.len() > 0 {
        lemma_update_preserves_symmetry(m, tours.drop_last(), q, rho, n);
        assert(tours[tours.len() - 1] == tours.last());
        lemma_apply_tour_symmetric(
            apply_tours(m, tours.drop_last(), q, rho),
            mat(tours.last().incidence),
            tours.last().length,
            q,
            rho,
            n,
        );
    }
}

/// Applies one tour to the pheromone matrix.
fn apply_one(pher: &mut Vec<Vec<u64>>, tour: &AntTour, q: u64, rho: u64, n: usize)
    requires
        is_square(mat(*old(pher)), n as int),
        is_square(mat(tour.incidence), n as int),
        rho <= EVAPORATION_DENOMINATOR,
    ensures
        mat(*final(pher)) == apply_tour(
            mat(*old(pher)),
            mat(tour.incidence),
            tour.length,
            q,
            rho,
        ),
        is_square(mat(*final(pher)), n as int),
{
    let ghost m0 = mat(*old(pher));
    let dep: u64 = if tour.length > 0 {
        q / tour.length
    } else {
        q
    };
    let mut i: usize = 0;
    while i < n
        invariant
            i <= n,
            rho <= EVAPORATION_DENOMINATOR,
            dep == deposit_amount(q, tour.length),
            is_square(m0, n as int),
            is_square(mat(tour.incidence), n as int),
            is_square(mat(*pher), n as int),
            forall|p: int, s: int|
                0 <= p < i && 0 <= s < n ==> #[trigger] mat(*pher)[p][s] == updated_entry(
                    m0[p][s],
                    mat(tour.incidence)[p][s],
                    q,
                    tour.length,
                    rho,
                ),
            forall|p: int, s: int|
                i <= p < n && 0 <= s < n ==> #[trigger] mat(*pher)[p][s] == m0[p][s],
        decreases n - i,
    {
        let mut j: usize = 0;
        while j < n
            invariant
                i < n,
                j <= n,
                rho <= EVAPORATION_DENOMINATOR,
                dep == deposit_amount(q, tour.length),
                is_square(m0, n as int),
                is_square(mat(tour.incidence), n as int),
                is_square(mat(*pher), n as int),
                forall|p: int, s: int|
                    0 <= p < i && 0 <= s < n ==> #[trigger] mat(*pher)[p][s] == updated_entry(
                        m0[p][s],
                        mat(tour.incidence)[p][s],
                        q,
                        tour.length,
                        rho,
                    ),
                forall|s: int|
                    0 <= s < j ==> #[trigger] mat(*pher)[i as int][s] == updated_entry(
                        m0[i as int][s],
                        mat(tour.incidence)[i as int][s],
                        q,
                        tour.length,
                        rho,
                    ),
                forall|s: int| j <= s < n ==> #[trigger] mat(*pher)[i as int][s] == m0[i as int][s],
                forall|p: int, s: int|
                    i < p < n && 0 <= s < n ==> #[trigger] mat(*pher)[p][s] == m0[p][s],
            decreases n - j,
        {
            let p = mat_get(pher, i, j);
            let used = mat_get(&tour.incidence, i, j);
            proof {
                assert((p as u128) * ((EVAPORATION_DENOMINATOR - rho) as u128) <= (u64::MAX
                    as u128) * 1000) by (nonlinear_arith)
                    requires
                        p as u128 <= u64::MAX as u128 && (EVAPORATION_DENOMINATOR - rho) as u128
                            <= 1000u128;
            }
            let ev128 = (p as u128) * ((EVAPORATION_DENOMINATOR - rho) as u128) / (
            EVAPORATION_DENOMINATOR as u128);
            let add128 = ev128 + if used != 0 {
                dep as u128
            } else {
                0
            };
            let newval: u64 = if add128 > u64::MAX as u128 {
                u64::MAX
            } else {
                add128 as u64
            };
            proof {
                assert(newval == updated_entry(
                    m0[i as int][j as int],
                    mat(tour.incidence)[i as int][j as int],
                    q,
                    tour.length,
                    rho,
                ));
            }
            let ghost before = mat(*pher);
            mat_set(pher, i, j, newval);
            proof {
                assert forall|a: int, b: int|
                    0 <= a < n && 0 <= b < n && !(a == i && b == j) implies #[trigger] mat(
                    *pher,
                )[a][b] == before[a][b] by {}
            }
            j = j + 1;
        }
        i = i + 1;
    }
    proof {
        assert(mat(*pher) =~~= apply_tour(m0, mat(tour.incidence), tour.length, q, rho));
    }
}

/// Applies the whole round of ant tours to the pheromone matrix, in the
/// order the ants walked.
pub fn update_pheromones(
    pher: &mut Vec<Vec<u64>>,
    tours: &Vec<AntTour>,
    q: u64,
    rho: u64,
    n: usize,
)
    requires
        is_square(mat(*old(pher)), n as int),
        rho <= EVAPORATION_DENOMINATOR,
        forall|k: int|
            0 <= k < tours@.len() ==> is_square(mat((#[trigger] tours@[k]).incidence), n as int),
    ensures
        mat(*final(pher)) == apply_tours(mat(*old(pher)), tours@, q, rho),
        is_square(mat(*final(pher)), n as int),
{
    let ghost m0 = mat(*old(pher));
    let mut k: usize = 0;
    proof {
        assert(tours@.take(0) =~= Seq::<AntTour>::empty());
    }
    while k < tours.len()
        invariant
            k <= tours@.len(),
            rho <= EVAPORATION_DENOMINATOR,
            is_square(m0, n as int),
            forall|t: int|
                0 <= t < tours@.len() ==> is_square(
                    mat((#[trigger] tours@[t]).incidence),
                    n as int,
                ),
            mat(*pher) == apply_tours(m0, tours@.take(k as int), q, rho),
            is_square(mat(*pher), n as int),
        decreases tours@.len() - k,
    {
        let t = &tours[k];
        apply_one(pher, t, q, rho, n);
        proof {
            assert(tours@.take(k as int + 1).drop_last() =~= tours@.take(k as int));
            assert(tours@.take(k as int + 1).last() == tours@[k as int]);
        }
        k = k + 1;
    }
    proof {
        assert(tours@.take(tours@.len() as int) =~= tours@);
    }
}

} // verus!
