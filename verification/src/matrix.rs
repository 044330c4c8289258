//! Dense square matrices of unsigned fixed-point values, stored row by row
//! as `Vec<Vec<u64>>`. The adjacency matrix, the pheromone matrix and each
//! ant tour's incidence matrix all use this shape.

use vstd::prelude::*;

verus! {

/// The mathematical view of a matrix: a sequence of rows.
pub open spec fn mat(m: Vec<Vec<u64>>) -> Seq<Seq<u64>> {
    m@.map_values(|row: Vec<u64>| row@)
}

/// `m` is an `n` by `n` matrix.
pub open spec fn is_square(m: Seq<Seq<u64>>, n: int) -> bool {
    &&& m.len() == n
    &&& forall|i: int| 0 <= i < n ==> (#[trigger] m[i]).len() == n
}

/// Every entry equals its mirror across the diagonal.
pub open spec fn symmetric(m: Seq<Seq<u64>>) -> bool {
    forall|i: int, j: int|
        0 <= i < m.len() && 0 <= j < m.len() ==> #[trigger] m[i][j] == m[j][i]
}

/// Every diagonal entry is zero.
pub open spec fn zero_diagonal(m: Seq<Seq<u64>>) -> bool {
    forall|i: int| 0 <= i < m.len() ==> #[trigger] m[i][i] == 0
}

/// Every entry is at most `bound`.
pub open spec fn entries_at_most(m: Seq<Seq<u64>>, bound: u64) -> bool {
    forall|i: int, j: int|
        0 <= i < m.len() && 0 <= j < m[i].len() ==> #[trigger] m[i][j] <= bound
}

/// Every entry is zero.
pub open spec fn all_zero(m: Seq<Seq<u64>>) -> bool {
    forall|i: int, j: int|
        0 <= i < m.len() && 0 <= j < m[i].len() ==> #[trigger] m[i][j] == 0
}

/// A row of `n` zeroes.
pub fn zero_row(n: usize) -> (row: Vec<u64>)
    ensures
        row@.len() == n,
        forall|j: int| 0 <= j < n ==> row@[j] == 0,
{
    let mut row: Vec<u64> = Vec::new();
    let mut j: usize = 0;
    while j < n
        invariant
            j <= n,
            row@.len() == j,
            forall|k: int| 0 <= k < j ==> row@[k] == 0,
        decreases n - j,
    {
        row.push(0);
        j = j + 1;
    }
    row
}

/// An `n` by `n` matrix of zeroes.
pub fn zero_matrix(n: usize) -> (m: Vec<Vec<u64>>)
    ensures
        is_square(mat(m), n as int),
        all_zero(mat(m)),
{
    let mut m: Vec<Vec<u64>> = Vec::new();
    let mut i: usize = 0;
    while i < n
        invariant
            i <= n,
            m@.len() == i,
            forall|a: int| 0 <= a < i ==> (#[trigger] mat(m)[a]).len() == n,
            forall|a: int, b: int| 0 <= a < i && 0 <= b < n ==> #[trigger] mat(m)[a][b] == 0,
        decreases n - i,
    {
        let ghost prev = m;
        let row = zero_row(n);
        m.push(row);
        proof {
            assert(mat(m) =~= mat(prev).push(row@));
        }
        i = i + 1;
    }
    m
}

/// Read entry `(i, j)`.
pub fn mat_get(m: &Vec<Vec<u64>>, i: usize, j: usize) -> (r: u64)
    requires
        i < mat(*m).len(),
        j < mat(*m)[i as int].len(),
    ensures
        r == mat(*m)[i as int][j as int],
{
    m[i][j]
}

/// Write entry `(i, j)`.
pub fn mat_set(m: &mut Vec<Vec<u64>>, i: usize, j: usize, v: u64)
    requires
        i < mat(*old(m)).len(),
        j < mat(*old(m))[i as int].len(),
    ensures
        mat(*final(m)) == mat(*old(m)).update(
            i as int,
            mat(*old(m))[i as int].update(j as int, v),
        ),
        mat(*final(m)).len() == mat(*old(m)).len(),
        forall|a: int| 0 <= a < mat(*final(m)).len()
            ==> (#[trigger] mat(*final(m))[a]).len() == mat(*old(m))[a].len(),
        forall|a: int, b: int|
            0 <= a < mat(*final(m)).len() && 0 <= b < mat(*final(m))[a].len()
                && !(a == i && b == j)
                ==> #[trigger] mat(*final(m))[a][b] == mat(*old(m))[a][b],
        mat(*final(m))[i as int][j as int] == v,
{
    m[i][j] = v;
    proof {
        assert(mat(*m) =~= mat(*old(m)).update(
            i as int,
            mat(*old(m))[i as int].update(j as int, v),
        ));
    }
}

} // verus!
