//! The maze: which cells of the lattice belong to the shape, and which lattice
//! edges are open passages.
use crate::graph::{is_open_edge, opens_more};
use crate::lattice::{
    cell_count, cells, coord, coord_of, edge_index, edge_valid, lemma_cells_bound, lemma_step,
    lemma_step_back, stride, stride_of, MAX_HALF_SIZE,
};
use vstd::prelude::*;

verus! {

/// A maze on the lattice of side `2 * half_size + 1`.
///
/// `inside[c]` tells whether cell `c` belongs to the playable shape;
/// `open[3 * c + a]` whether the edge from `c` one step along axis `a` is open.
pub struct Maze {
    pub half_size: usize,
    pub inside: Vec<bool>,
    pub open: Vec<bool>,
}

/// The edge `(c - stride(a), a)` arriving at `c` along axis `a` exists and is open.
pub open spec fn is_open_back(n: int, o: Seq<bool>, c: int, a: int) -> bool {
    is_open_edge(n, o, c - stride(n, a), a)
}

pub open spec fn ind(b: bool) -> int {
    if b {
        1
    } else {
        0
    }
}

/// Number of open edges at cell `c`.
pub open spec fn degree(n: int, o: Seq<bool>, c: int) -> int {
    ind(is_open_edge(n, o, c, 0)) + ind(is_open_edge(n, o, c, 1)) + ind(is_open_edge(n, o, c, 2))
        + ind(is_open_back(n, o, c, 0)) + ind(is_open_back(n, o, c, 1)) + ind(
        is_open_back(n, o, c, 2),
    )
}

/// Only existing lattice edges are marked open.
pub open spec fn open_only_valid(n: int, o: Seq<bool>) -> bool {
    forall|c: int, a: int|
        0 <= c < cells(n) && 0 <= a < 3 && #[trigger] o[edge_index(c, a)] ==> edge_valid(n, c, a)
}

impl Maze {
    /// Side of the lattice.
    pub open spec fn n(&self) -> int {
        2 * self.half_size + 1
    }

    pub open spec fn wf(&self) -> bool {
        &&& self.half_size <= MAX_HALF_SIZE
        &&& self.inside@.len() == cells(self.n())
        &&& self.open@.len() == 3 * cells(self.n())
        &&& open_only_valid(self.n(), self.open@)
    }

    /// Side of the lattice.
    pub fn side(&self) -> (r: usize)
        requires
            self.wf(),
        ensures
            r == self.n(),
    {
        2 * self.half_size + 1
    }

    /// Number of cells of the lattice.
    pub fn cell_total(&self) -> (r: usize)
        requires
            self.wf(),
        ensures
            r == cells(self.n()),
    {
        cell_count(self.side())
    }

    /// Whether cell `c` belongs to the shape.
    pub fn is_inside(&self, c: usize) -> (r: bool)
        requires
            self.wf(),
            c < cells(self.n()),
        ensures
            r == self.inside@[c as int],
    {
        self.inside[c]
    }

    /// Whether the edge from `c` one step along axis `a` exists and is open.
    pub fn is_open(&self, c: usize, a: usize) -> (r: bool)
        requires
            self.wf(),
            c < cells(self.n()),
            a < 3,
        ensures
            r == is_open_edge(self.n(), self.open@, c as int, a as int),
    {
        proof {
            lemma_cells_bound(self.n());
        }
        let n = self.side();
        coord_of(n, c, a) + 1 < n && self.open[3 * c + a]
    }

    /// Whether the edge arriving at `c` along axis `a` exists and is open.
    pub fn is_open_from_back(&self, c: usize, a: usize) -> (r: bool)
        requires
            self.wf(),
            c < cells(self.n()),
            a < 3,
        ensures
            r == is_open_back(self.n(), self.open@, c as int, a as int),
    {
        proof {
            lemma_cells_bound(self.n());
        }
        let n = self.side();
        if coord_of(n, c, a) > 0 {
            proof {
                lemma_step_back(self.n(), c as int, a as int);
            }
            let b = c - stride_of(n, a);
            self.open[3 * b + a]
        } else {
            proof {
                lemma_no_back_edge(self.n(), c as int, a as int);
            }
            false
        }
    }

    /// Number of open edges at cell `c`.
    pub fn degree(&self, c: usize) -> (r: usize)
        requires
            self.wf(),
            c < cells(self.n()),
        ensures
            r == degree(self.n(), self.open@, c as int),
    {
        let mut r: usize = 0;
        let mut a: usize = 0;
        while a < 3
            invariant
                self.wf(),
                c < cells(self.n()),
                a <= 3,
                r <= 2 * a,
                r == (if a > 0 {
                    ind(is_open_edge(self.n(), self.open@, c as int, 0)) + ind(
                        is_open_back(self.n(), self.open@, c as int, 0),
                    )
                } else {
                    0
                }) + (if a > 1 {
                    ind(is_open_edge(self.n(), self.open@, c as int, 1)) + ind(
                        is_open_back(self.n(), self.open@, c as int, 1),
                    )
                } else {
                    0
                }) + (if a > 2 {
                    ind(is_open_edge(self.n(), self.open@, c as int, 2)) + ind(
                        is_open_back(self.n(), self.open@, c as int, 2),
                    )
                } else {
                    0
                }),
            decreases 3 - a,
        {
            if self.is_open(c, a) {
                r = r + 1;
            }
            if self.is_open_from_back(c, a) {
                r = r + 1;
            }
            a = a + 1;
        }
        r
    }

    /// Number of open edges of the maze.
    pub fn open_edge_count(&self) -> (r: usize)
        requires
            self.wf(),
        ensures
            r == count_open(self.open@),
    {
        let mut r: usize = 0;
        let mut i: usize = 0;
        while i < self.open.len()
            invariant
                i <= self.open@.len(),
                r == count_open(self.open@.subrange(0, i as int)),
                r <= i,
            decreases self.open@.len() - i,
        {
            assert(self.open@.subrange(0, i + 1).drop_last() == self.open@.subrange(0, i as int));
            if self.open[i] {
                r = r + 1;
            }
            i = i + 1;
        }
        assert(self.open@.subrange(0, self.open@.len() as int) == self.open@);
        r
    }
}

/// Number of open flags in `o`.
pub open spec fn count_open(o: Seq<bool>) -> nat
    decreases o.len(),
{
    if o.len() == 0 {
        0
    } else {
        count_open(o.drop_last()) + if o.last() {
            1nat
        } else {
            0nat
        }
    }
}

/// Closing edges never raises the count of open ones, and closing one that
/// was open lowers it.
pub proof fn lemma_count_open_sub(o2: Seq<bool>, o: Seq<bool>)
    requires
        opens_more(o2, o),
    ensures
        count_open(o2) <= count_open(o),
        (exists|i: int| 0 <= i < o.len() && o[i] && !o2[i]) ==> count_open(o2) < count_open(o),
    decreases o.len(),
{
    if o.len() > 0 {
        let a = o2.drop_last();
        let b = o.drop_last();
        assert(opens_more(a, b)) by {
            assert forall|i: int| 0 <= i < b.len() && #[trigger] a[i] implies b[i] by {
                assert(o2[i]);
            }
        }
        lemma_count_open_sub(a, b);
        if exists|i: int| 0 <= i < o.len() && o[i] && !o2[i] {
            let i = choose|i: int| 0 <= i < o.len() && o[i] && !o2[i];
            if i < o.len() - 1 {
                assert(b[i] && !a[i]);
            }
        }
    }
}

/// Opening a closed slot raises the count by one.
pub proof fn lemma_count_open_update(o: Seq<bool>, j: int)
    requires
        0 <= j < o.len(),
        !o[j],
    ensures
        count_open(o.update(j, true)) == count_open(o) + 1,
    decreases o.len(),
{
    let u = o.update(j, true);
    if j < o.len() - 1 {
        assert(u.drop_last() == o.drop_last().update(j, true));
        lemma_count_open_update(o.drop_last(), j);
    } else {
        assert(u.drop_last() == o.drop_last());
    }
}

/// A cell at coordinate zero along `a` has no edge arriving along `a`.
pub proof fn lemma_no_back_edge(n: int, c: int, a: int)
    requires
        1 <= n,
        0 <= c < cells(n),
        0 <= a < 3,
        coord(n, c, a) == 0,
    ensures
        !edge_valid(n, c - stride(n, a), a),
{
    if edge_valid(n, c - stride(n, a), a) {
        lemma_step(n, c - stride(n, a), a);
    }
}

} // verus!
