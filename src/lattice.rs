//! The cubic lattice: cells addressed by one index, their coordinates, and the
//! lattice edges between axis neighbours.
//!
//! A lattice of side `n` has `n * n * n` cells. Cell `c` has coordinates
//! `(c % n, (c / n) % n, c / n / n)`. The edge `(c, a)` joins cell `c` to the
//! cell one step further along axis `a`; it exists when that step stays inside
//! the lattice.
use vstd::arithmetic::div_mod::lemma_fundamental_div_mod_converse;
use vstd::prelude::*;

verus! {

/// The largest half-size for which every index of the lattice fits in `usize`.
pub const MAX_HALF_SIZE: usize = 500;

pub open spec fn cells(n: int) -> int {
    n * n * n
}

pub open spec fn coord(n: int, c: int, a: int) -> int {
    if a == 0 {
        c % n
    } else if a == 1 {
        (c / n) % n
    } else {
        c / n / n
    }
}

pub open spec fn stride(n: int, a: int) -> int {
    if a == 0 {
        1
    } else if a == 1 {
        n
    } else {
        n * n
    }
}

pub open spec fn compose(n: int, x: int, y: int, z: int) -> int {
    x + n * (y + n * z)
}

/// The lattice edge `(c, a)` exists.
pub open spec fn edge_valid(n: int, c: int, a: int) -> bool {
    0 <= a < 3 && 0 <= c < cells(n) && coord(n, c, a) + 1 < n
}

/// The index of edge `(c, a)` in a per-edge table.
pub open spec fn edge_index(c: int, a: int) -> int {
    3 * c + a
}

pub proof fn lemma_cells_bound(n: int)
    requires
        1 <= n <= 2 * MAX_HALF_SIZE + 1,
    ensures
        0 < cells(n),
        3 * cells(n) <= usize::MAX,
        n * n <= cells(n),
        n <= n * n,
{
    assert(n * n <= 1001 * 1001) by (nonlinear_arith)
        requires 1 <= n <= 1001;
    assert(n * n * n <= 1001 * 1001 * 1001) by (nonlinear_arith)
        requires 1 <= n <= 1001, n * n <= 1001 * 1001;
    assert(0 < n * n * n) by (nonlinear_arith)
        requires 1 <= n;
    assert(n * n <= n * n * n) by (nonlinear_arith)
        requires 1 <= n;
    assert(n <= n * n) by (nonlinear_arith)
        requires 1 <= n;
}

/// Coordinates below `n` give a cell of the lattice, and reading them back
/// gives the same coordinates.
pub proof fn lemma_compose(n: int, x: int, y: int, z: int)
    requires
        0 <= x < n,
        0 <= y < n,
        0 <= z < n,
    ensures
        0 <= compose(n, x, y, z) < cells(n),
        coord(n, compose(n, x, y, z), 0) == x,
        coord(n, compose(n, x, y, z), 1) == y,
        coord(n, compose(n, x, y, z), 2) == z,
{
    let c = compose(n, x, y, z);
    let q = y + n * z;
    assert(0 <= n * z) by (nonlinear_arith)
        requires 0 <= z, 0 < n;
    assert(c == q * n + x) by (nonlinear_arith)
        requires c == x + n * q;
    lemma_fundamental_div_mod_converse(c, n, q, x);
    assert(q == z * n + y) by (nonlinear_arith)
        requires q == y + n * z;
    lemma_fundamental_div_mod_converse(q, n, z, y);
    assert(q <= n * n - 1) by (nonlinear_arith)
        requires q == y + n * z, 0 <= y < n, 0 <= z < n;
    assert(c <= n * n * n - 1) by (nonlinear_arith)
        requires c == x + n * q, 0 <= x < n, q <= n * n - 1, 0 < n;
    assert(0 <= c) by (nonlinear_arith)
        requires c == x + n * q, 0 <= x, 0 <= q, 0 < n;
}

/// Every cell is the composition of its coordinates, each below `n`.
pub proof fn lemma_decompose(n: int, c: int)
    requires
        1 <= n,
        0 <= c < cells(n),
    ensures
        0 <= coord(n, c, 0) < n,
        0 <= coord(n, c, 1) < n,
        0 <= coord(n, c, 2) < n,
        c == compose(n, coord(n, c, 0), coord(n, c, 1), coord(n, c, 2)),
{
    let x = c % n;
    let q = c / n;
    let y = q % n;
    let z = q / n;
    assert(c == n * q + x && 0 <= x < n) by {
        vstd::arithmetic::div_mod::lemma_fundamental_div_mod(c, n);
        vstd::arithmetic::div_mod::lemma_mod_pos_bound(c, n);
    }
    assert(q == n * z + y && 0 <= y < n) by {
        vstd::arithmetic::div_mod::lemma_fundamental_div_mod(q, n);
        vstd::arithmetic::div_mod::lemma_mod_pos_bound(q, n);
    }
    assert(0 <= q) by (nonlinear_arith)
        requires c == n * q + x, 0 <= c, x < n, 1 <= n;
    assert(0 <= z) by (nonlinear_arith)
        requires q == n * z + y, 0 <= q, y < n, 1 <= n;
    assert(z < n) by (nonlinear_arith)
        requires c == n * q + x, q == n * z + y, c < n * n * n, 0 <= x, 0 <= y, 1 <= n;
}

/// Stepping along an existing edge moves one unit along its axis and keeps
/// the other coordinates.
pub proof fn lemma_step(n: int, c: int, a: int)
    requires
        1 <= n,
        edge_valid(n, c, a),
    ensures
        0 <= c + stride(n, a) < cells(n),
        c < c + stride(n, a),
        coord(n, c + stride(n, a), a) == coord(n, c, a) + 1,
        forall|b: int| 0 <= b < 3 && b != a ==> coord(n, c + stride(n, a), b) == coord(n, c, b),
{
    lemma_decompose(n, c);
    let x = coord(n, c, 0);
    let y = coord(n, c, 1);
    let z = coord(n, c, 2);
    if a == 0 {
        lemma_compose(n, x + 1, y, z);
    } else if a == 1 {
        assert(compose(n, x, y + 1, z) == c + n) by (nonlinear_arith)
            requires c == compose(n, x, y, z);
        lemma_compose(n, x, y + 1, z);
    } else {
        assert(compose(n, x, y, z + 1) == c + n * n) by (nonlinear_arith)
            requires c == compose(n, x, y, z);
        lemma_compose(n, x, y, z + 1);
    }
    assert(0 < stride(n, a)) by (nonlinear_arith)
        requires 1 <= n, stride(n, a) == 1 || stride(n, a) == n || stride(n, a) == n * n;
}

/// A cell whose coordinate along `a` is positive is reached by the edge `(c',
/// a)` from the cell `c'` one step back.
pub proof fn lemma_step_back(n: int, c: int, a: int)
    requires
        1 <= n,
        0 <= c < cells(n),
        0 <= a < 3,
        coord(n, c, a) > 0,
    ensures
        edge_valid(n, c - stride(n, a), a),
        c - stride(n, a) + stride(n, a) == c,
{
    lemma_decompose(n, c);
    let x = coord(n, c, 0);
    let y = coord(n, c, 1);
    let z = coord(n, c, 2);
    if a == 0 {
        lemma_compose(n, x - 1, y, z);
    } else if a == 1 {
        assert(compose(n, x, y - 1, z) == c - n) by (nonlinear_arith)
            requires c == compose(n, x, y, z);
        lemma_compose(n, x, y - 1, z);
    } else {
        assert(compose(n, x, y, z - 1) == c - n * n) by (nonlinear_arith)
            requires c == compose(n, x, y, z);
        lemma_compose(n, x, y, z - 1);
    }
}

/// Every cell but the first is the far end of some lattice edge.
pub proof fn lemma_has_back_edge(n: int, c: int) -> (a: int)
    requires
        1 <= n,
        0 < c < cells(n),
    ensures
        edge_valid(n, c - stride(n, a), a),
        0 <= c - stride(n, a) < c,
{
    lemma_decompose(n, c);
    let a = if coord(n, c, 0) > 0 {
        0int
    } else if coord(n, c, 1) > 0 {
        1int
    } else {
        2int
    };
    if coord(n, c, 0) == 0 && coord(n, c, 1) == 0 {
        assert(coord(n, c, 2) > 0) by (nonlinear_arith)
            requires c == compose(n, 0, 0, coord(n, c, 2)), 0 < c;
    }
    lemma_step_back(n, c, a);
    lemma_step(n, c - stride(n, a), a);
    a
}

/// Number of cells of a lattice of side `n`.
pub fn cell_count(n: usize) -> (r: usize)
    requires
        1 <= n <= 2 * MAX_HALF_SIZE + 1,
    ensures
        r == cells(n as int),
{
    proof {
        lemma_cells_bound(n as int);
    }
    n * n * n
}

/// Step between the indices of two neighbours along axis `a`.
pub fn stride_of(n: usize, a: usize) -> (r: usize)
    requires
        1 <= n <= 2 * MAX_HALF_SIZE + 1,
        a < 3,
    ensures
        r == stride(n as int, a as int),
{
    proof {
        lemma_cells_bound(n as int);
    }
    if a == 0 {
        1
    } else if a == 1 {
        n
    } else {
        n * n
    }
}

/// Coordinate of cell `c` along axis `a`.
pub fn coord_of(n: usize, c: usize, a: usize) -> (r: usize)
    requires
        1 <= n <= 2 * MAX_HALF_SIZE + 1,
        c < cells(n as int),
        a < 3,
    ensures
        r == coord(n as int, c as int, a as int),
        r < n,
{
    proof {
        lemma_decompose(n as int, c as int);
    }
    if a == 0 {
        c % n
    } else if a == 1 {
        (c / n) % n
    } else {
        c / n / n
    }
}

} // verus!
