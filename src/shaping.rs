//! Passes that reshape a maze: carving to a sphere, closing dead ends until
//! none is left, and trimming the outer layer.
use crate::graph::{is_open_edge, is_walk, joins, opens_more, reach};
use crate::lattice::{
    cells, coord, coord_of, edge_index, edge_valid, lemma_cells_bound, lemma_step,
    lemma_step_back, stride, stride_of,
};
use crate::maze::{count_open, degree, is_open_back, lemma_count_open_sub, lemma_no_back_edge, Maze};
use vstd::prelude::*;

verus! {

/// Edge `(c, a)` has cell `x` as one of its ends.
pub open spec fn touches(n: int, c: int, a: int, x: int) -> bool {
    c == x || (edge_valid(n, c, a) && c + stride(n, a) == x)
}

/// Every open edge joins two inside cells.
pub open spec fn closed_outside(n: int, ins: Seq<bool>, o: Seq<bool>) -> bool {
    forall|c: int, a: int| #[trigger] is_open_edge(n, o, c, a) ==> ins[c] && ins[c + stride(n, a)]
}

/// Cell `c` lies in the ball of radius `h` around the centre of the lattice.
pub open spec fn in_sphere(h: int, c: int) -> bool {
    let n = 2 * h + 1;
    let dx = coord(n, c, 0) - h;
    let dy = coord(n, c, 1) - h;
    let dz = coord(n, c, 2) - h;
    dx * dx + dy * dy + dz * dz <= h * h
}

/// Cell `c` lies on a face of the lattice.
pub open spec fn on_face(n: int, c: int) -> bool {
    exists|a: int| 0 <= a < 3 && (#[trigger] coord(n, c, a) == 0 || coord(n, c, a) == n - 1)
}

/// Cell `x` is an end of the open edge `(c, a)` that joins `w` and `x`; with at
/// most one open edge at `x`, `w` is the one neighbour of `x`.
proof fn lemma_leaf_neighbour(n: int, o: Seq<bool>, x: int, c: int, a: int, w: int, c2: int, a2: int, w2: int)
    requires
        1 <= n,
        0 <= x < cells(n),
        degree(n, o, x) <= 1,
        joins(n, o, c, a, w, x),
        joins(n, o, c2, a2, x, w2),
    ensures
        w == w2,
{
    if c == x {
        assert(is_open_edge(n, o, x, a));
    } else {
        assert(c == x - stride(n, a));
        assert(is_open_back(n, o, x, a));
    }
    if c2 == x {
        assert(is_open_edge(n, o, x, a2));
    } else {
        assert(c2 == x - stride(n, a2));
        assert(is_open_back(n, o, x, a2));
    }
}

/// A walk between two cells other than `x` survives closing the edges at `x`
/// when `x` had at most one open edge: any pass through `x` goes in and out
/// by the same edge and can be cut out.
proof fn lemma_walk_avoids_leaf(n: int, o: Seq<bool>, o2: Seq<bool>, x: int, p: Seq<int>, e: Seq<(int, int)>)
    requires
        1 <= n,
        0 <= x < cells(n),
        degree(n, o, x) <= 1,
        forall|c: int, a: int|
            0 <= c < cells(n) && 0 <= a < 3 ==> #[trigger] is_open_edge(n, o2, c, a) == (
            is_open_edge(n, o, c, a) && !touches(n, c, a, x)),
        is_walk(n, o, p, e),
        p[0] != x,
        p[p.len() - 1] != x,
    ensures
        reach(n, o2, p[0], p[p.len() - 1]),
    decreases p.len(),
{
    if exists|i: int| 0 < i < p.len() - 1 && p[i] == x {
        let i = choose|i: int| 0 < i < p.len() - 1 && p[i] == x;
        let k = i - 1;
        assert(joins(n, o, e[k].0, e[k].1, p[k], p[k + 1]));
        assert(joins(n, o, e[i].0, e[i].1, p[i], p[i + 1]));
        lemma_leaf_neighbour(n, o, x, e[i - 1].0, e[i - 1].1, p[i - 1], e[i].0, e[i].1, p[i + 1]);
        let q = p.subrange(0, i) + p.subrange(i + 2, p.len() as int);
        let f = e.subrange(0, i - 1) + e.subrange(i + 1, e.len() as int);
        assert forall|j: int| 0 <= j < f.len() implies #[trigger] joins(
            n,
            o,
            f[j].0,
            f[j].1,
            q[j],
            q[j + 1],
        ) by {
            if j < i - 1 {
                assert(joins(n, o, e[j].0, e[j].1, p[j], p[j + 1]));
            } else {
                let k = j + 2;
                assert(joins(n, o, e[k].0, e[k].1, p[k], p[k + 1]));
                assert(f[j] == e[k]);
                assert(q[j] == p[k]);
                assert(q[j + 1] == p[k + 1]);
            }
        }
        assert(is_walk(n, o, q, f));
        assert(q[0] == p[0]);
        assert(q[q.len() - 1] == p[p.len() - 1]);
        lemma_walk_avoids_leaf(n, o, o2, x, q, f);
    } else {
        assert forall|j: int| 0 <= j < e.len() implies #[trigger] joins(
            n,
            o2,
            e[j].0,
            e[j].1,
            p[j],
            p[j + 1],
        ) by {
            assert(joins(n, o, e[j].0, e[j].1, p[j], p[j + 1]));
            assert(p[j] != x);
            assert(p[j + 1] != x);
            assert(!touches(n, e[j].0, e[j].1, x));
        }
        assert(is_walk(n, o2, p, e));
    }
}

/// Closing the edges at a cell with at most one open edge keeps every
/// connection between the other cells.
pub proof fn lemma_leaf_removal_keeps_reach(n: int, o: Seq<bool>, o2: Seq<bool>, x: int, u: int, v: int)
    requires
        1 <= n,
        0 <= x < cells(n),
        degree(n, o, x) <= 1,
        forall|c: int, a: int|
            0 <= c < cells(n) && 0 <= a < 3 ==> #[trigger] is_open_edge(n, o2, c, a) == (
            is_open_edge(n, o, c, a) && !touches(n, c, a, x)),
        u != x,
        v != x,
        reach(n, o, u, v),
    ensures
        reach(n, o2, u, v),
{
    let (p, e) = choose|p: Seq<int>, e: Seq<(int, int)>|
        #[trigger] is_walk(n, o, p, e) && p[0] == u && p[p.len() - 1] == v;
    lemma_walk_avoids_leaf(n, o, o2, x, p, e);
}

/// Every two cells still inside (per `ins2`) that were connected in `o` are
/// connected in `o2`.
pub open spec fn keeps_links(n: int, o: Seq<bool>, o2: Seq<bool>, ins2: Seq<bool>) -> bool {
    forall|u: int, v: int|
        0 <= u < cells(n) && 0 <= v < cells(n) && ins2[u] && ins2[v] && #[trigger] reach(n, o, u, v)
            ==> #[trigger] reach(n, o2, u, v)
}

pub proof fn lemma_keeps_links_trans(
    n: int,
    o0: Seq<bool>,
    o1: Seq<bool>,
    o2: Seq<bool>,
    ins1: Seq<bool>,
    ins2: Seq<bool>,
)
    requires
        keeps_links(n, o0, o1, ins1),
        keeps_links(n, o1, o2, ins2),
        forall|c: int| 0 <= c < cells(n) && #[trigger] ins2[c] ==> ins1[c],
    ensures
        keeps_links(n, o0, o2, ins2),
{
    assert forall|u: int, v: int|
        0 <= u < cells(n) && 0 <= v < cells(n) && ins2[u] && ins2[v] && #[trigger] reach(n, o0, u, v)
            implies #[trigger] reach(n, o2, u, v) by {
        assert(ins1[u] && ins1[v]);
        assert(reach(n, o1, u, v));
    }
}

/// Closing edges never raises a degree.
pub proof fn lemma_degree_mono(n: int, o2: Seq<bool>, o: Seq<bool>, c: int)
    requires
        opens_more(o2, o),
    ensures
        degree(n, o2, c) <= degree(n, o, c),
{
    assert forall|a: int| 0 <= a < 3 implies (is_open_edge(n, o2, c, a) ==> is_open_edge(n, o, c, a))
        && (is_open_back(n, o2, c, a) ==> is_open_back(n, o, c, a)) by {
        if is_open_edge(n, o2, c, a) {
            assert(o2[edge_index(c, a)]);
        }
        if is_open_back(n, o2, c, a) {
            assert(o2[edge_index(c - stride(n, a), a)]);
        }
    }
}

/// The open flags of `o` once every edge at a cell of `gone` is closed.
pub open spec fn without(n: int, o: Seq<bool>, gone: Seq<int>) -> Seq<bool> {
    Seq::new(
        o.len(),
        |i: int| o[i] && forall|j: int| 0 <= j < gone.len() ==> !touches(n, i / 3, i % 3, #[trigger] gone[j]),
    )
}

/// Closing off the cells of `gone` one after the other, each had exactly one
/// open edge when its turn came.
pub open spec fn peels(n: int, o: Seq<bool>, gone: Seq<int>) -> bool {
    forall|k: int|
        0 <= k < gone.len() ==> 0 <= #[trigger] gone[k] < cells(n) && degree(
            n,
            without(n, o, gone.subrange(0, k)),
            gone[k],
        ) == 1
}

pub proof fn lemma_without_concat(n: int, o: Seq<bool>, a: Seq<int>, b: Seq<int>)
    ensures
        without(n, without(n, o, a), b) == without(n, o, a + b),
{
    let l = without(n, without(n, o, a), b);
    let r = without(n, o, a + b);
    assert forall|i: int| 0 <= i < o.len() implies l[i] == r[i] by {
        if l[i] {
            assert forall|j: int| 0 <= j < (a + b).len() implies !touches(n, i / 3, i % 3, #[trigger] (a + b)[j]) by {
                if j < a.len() {
                    assert((a + b)[j] == a[j]);
                } else {
                    assert((a + b)[j] == b[j - a.len()]);
                }
            }
        }
        if r[i] {
            assert forall|j: int| 0 <= j < a.len() implies !touches(n, i / 3, i % 3, #[trigger] a[j]) by {
                assert((a + b)[j] == a[j]);
            }
            assert forall|j: int| 0 <= j < b.len() implies !touches(n, i / 3, i % 3, #[trigger] b[j]) by {
                assert((a + b)[j + a.len()] == b[j]);
            }
        }
    }
    assert(l =~= r);
}

pub proof fn lemma_peels_concat(n: int, o: Seq<bool>, a: Seq<int>, b: Seq<int>)
    requires
        peels(n, o, a),
        peels(n, without(n, o, a), b),
    ensures
        peels(n, o, a + b),
{
    let g = a + b;
    assert forall|k: int| 0 <= k < g.len() implies 0 <= #[trigger] g[k] < cells(n) && degree(
        n,
        without(n, o, g.subrange(0, k)),
        g[k],
    ) == 1 by {
        if k < a.len() {
            assert(g.subrange(0, k) =~= a.subrange(0, k));
            assert(g[k] == a[k]);
        } else {
            let k2 = k - a.len();
            assert(g.subrange(0, k) =~= a + b.subrange(0, k2));
            assert(g[k] == b[k2]);
            lemma_without_concat(n, o, a, b.subrange(0, k2));
        }
    }
}

pub proof fn lemma_without_empty(n: int, o: Seq<bool>)
    ensures
        without(n, o, Seq::empty()) == o,
{
    assert(without(n, o, Seq::empty()) =~= o);
}

/// The slot-wise effect of closing off cell `x` is `without` for `x` alone.
proof fn lemma_isolate_is_without(n: int, before: Seq<bool>, after: Seq<bool>, x: int)
    requires
        before.len() == 3 * cells(n),
        after.len() == before.len(),
        forall|c: int, a: int|
            0 <= c < cells(n) && 0 <= a < 3 ==> #[trigger] after[edge_index(c, a)] == (
            before[edge_index(c, a)] && !touches(n, c, a, x)),
    ensures
        after == without(n, before, seq![x]),
{
    let w = without(n, before, seq![x]);
    assert forall|i: int| 0 <= i < after.len() implies after[i] == w[i] by {
        let c = i / 3;
        let a = i % 3;
        assert(i == edge_index(c, a));
        assert(after[edge_index(c, a)] == (before[edge_index(c, a)] && !touches(n, c, a, x)));
        assert(seq![x][0] == x);
    }
    assert(after =~= w);
}

/// A cell is in `a + b` exactly when it is in `a` or in `b`.
proof fn lemma_contains_concat(a: Seq<int>, b: Seq<int>, c: int)
    ensures
        (a + b).contains(c) == (a.contains(c) || b.contains(c)),
{
    if (a + b).contains(c) {
        let j = choose|j: int| 0 <= j < (a + b).len() && (a + b)[j] == c;
        if j < a.len() {
            assert(a[j] == c);
        } else {
            assert(b[j - a.len()] == c);
        }
    }
    if a.contains(c) {
        let j = choose|j: int| 0 <= j < a.len() && a[j] == c;
        assert((a + b)[j] == c);
    }
    if b.contains(c) {
        let j = choose|j: int| 0 <= j < b.len() && b[j] == c;
        assert((a + b)[j + a.len()] == c);
    }
}

/// The open flags once a dead-end sweep has handled the cells below `k` in
/// index order: a cell with exactly one open edge at its turn is closed off.
pub open spec fn swept_open(n: int, o: Seq<bool>, k: int) -> Seq<bool>
    decreases k,
{
    if k <= 0 {
        o
    } else {
        let p = swept_open(n, o, k - 1);
        if degree(n, p, k - 1) == 1 {
            without(n, p, seq![k - 1])
        } else {
            p
        }
    }
}

/// The open flags and inside flags once a trimming pass has handled the
/// cells below `k` in index order: an inside cell on a face of the lattice
/// with at most one open edge at its turn is closed off.
pub open spec fn trimmed(n: int, o: Seq<bool>, ins: Seq<bool>, k: int) -> (Seq<bool>, Seq<bool>)
    decreases k,
{
    if k <= 0 {
        (o, ins)
    } else {
        let (p, i) = trimmed(n, o, ins, k - 1);
        let c = k - 1;
        if i[c] && on_face(n, c) && degree(n, p, c) <= 1 {
            (without(n, p, seq![c]), i.update(c, false))
        } else {
            (p, i)
        }
    }
}

/// The flags after `k` whole trimming passes.
pub open spec fn trim_passes(n: int, o: Seq<bool>, ins: Seq<bool>, k: int) -> (Seq<bool>, Seq<bool>)
    decreases k,
{
    if k <= 0 {
        (o, ins)
    } else {
        let (p, i) = trim_passes(n, o, ins, k - 1);
        trimmed(n, p, i, cells(n))
    }
}

impl Maze {
    /// Some cell has exactly one open edge.
    pub open spec fn has_dead_end(&self) -> bool {
        exists|c: int| 0 <= c < cells(self.n()) && #[trigger] degree(self.n(), self.open@, c) == 1
    }

    /// A cell outside the shape has no open edge.
    pub proof fn lemma_outside_isolated(&self, c: int)
        requires
            self.wf(),
            closed_outside(self.n(), self.inside@, self.open@),
            0 <= c < cells(self.n()),
            !self.inside@[c],
        ensures
            degree(self.n(), self.open@, c) == 0,
    {
        let n = self.n();
        let o = self.open@;
        assert forall|a: int| 0 <= a < 3 implies !is_open_edge(n, o, c, a) && !is_open_back(n, o, c, a) by {
            if is_open_edge(n, o, c, a) {
                assert(self.inside@[c]);
            }
            if is_open_back(n, o, c, a) {
                assert(is_open_edge(n, o, c - stride(n, a), a));
                assert(self.inside@[c - stride(n, a) + stride(n, a)]);
            }
        }
    }

    /// Closes every open edge with an end outside the shape.
    pub fn close_outside_edges(&mut self)
        requires
            old(self).wf(),
        ensures
            final(self).wf(),
            final(self).half_size == old(self).half_size,
            final(self).inside@ == old(self).inside@,
            opens_more(final(self).open@, old(self).open@),
            closed_outside(final(self).n(), final(self).inside@, final(self).open@),
            closed_outside(old(self).n(), old(self).inside@, old(self).open@) ==> final(self).open@
                == old(self).open@,
            forall|c: int, a: int|
                0 <= c < cells(old(self).n()) && 0 <= a < 3 ==> #[trigger] is_open_edge(
                    final(self).n(),
                    final(self).open@,
                    c,
                    a,
                ) == (is_open_edge(old(self).n(), old(self).open@, c, a) && old(self).inside@[c]
                    && old(self).inside@[c + stride(old(self).n(), a)]),
    {
        let ghost o0 = self.open@;
        let ghost nn = self.n();
        proof {
            lemma_cells_bound(nn);
        }
        let n = self.side();
        let count = self.cell_total();
        let mut c: usize = 0;
        while c < count
            invariant
                self.wf(),
                nn == self.n(),
                n == nn,
                count == cells(nn),
                3 * count <= usize::MAX,
                self.half_size == old(self).half_size,
                self.inside@ == old(self).inside@,
                o0 == old(self).open@,
                c <= count,
                opens_more(self.open@, o0),
                closed_outside(nn, self.inside@, o0) ==> self.open@ == o0,
                forall|c2: int, a2: int|
                    0 <= c2 < count && 0 <= a2 < 3 ==> #[trigger] is_open_edge(nn, self.open@, c2, a2)
                        == (is_open_edge(nn, o0, c2, a2) && (c2 >= c || (self.inside@[c2]
                        && self.inside@[c2 + stride(nn, a2)]))),
            decreases count - c,
        {
            let mut a: usize = 0;
            while a < 3
                invariant
                    self.wf(),
                    nn == self.n(),
                    n == nn,
                    count == cells(nn),
                    3 * count <= usize::MAX,
                    self.half_size == old(self).half_size,
                    self.inside@ == old(self).inside@,
                    o0 == old(self).open@,
                    c < count,
                    a <= 3,
                    opens_more(self.open@, o0),
                    closed_outside(nn, self.inside@, o0) ==> self.open@ == o0,
                    forall|c2: int, a2: int|
                        0 <= c2 < count && 0 <= a2 < 3 ==> #[trigger] is_open_edge(
                            nn,
                            self.open@,
                            c2,
                            a2,
                        ) == (is_open_edge(nn, o0, c2, a2) && ((c2 > c || (c2 == c && a2 >= a)) || (
                        self.inside@[c2] && self.inside@[c2 + stride(nn, a2)]))),
                decreases 3 - a,
            {
                let ghost before = self.open@;
                if self.is_open(c, a) {
                    proof {
                        lemma_step(nn, c as int, a as int);
                    }
                    let d = c + stride_of(n, a);
                    if !(self.inside[c] && self.inside[d]) {
                        proof {
                            if closed_outside(nn, self.inside@, o0) {
                                assert(is_open_edge(nn, o0, c as int, a as int));
                            }
                        }
                        self.open.set(3 * c + a, false);
                    }
                }
                proof {
                    assert forall|c2: int, a2: int| 0 <= c2 < count && 0 <= a2 < 3 implies #[trigger] is_open_edge(
                        nn,
                        self.open@,
                        c2,
                        a2,
                    ) == (is_open_edge(nn, o0, c2, a2) && ((c2 > c || (c2 == c && a2 >= a + 1)) || (
                    self.inside@[c2] && self.inside@[c2 + stride(nn, a2)]))) by {
                        assert(is_open_edge(nn, before, c2, a2) == (is_open_edge(nn, o0, c2, a2) && ((c2 > c || (c2 == c && a2 >= a)) || (
                        self.inside@[c2] && self.inside@[c2 + stride(nn, a2)]))));
                        if c2 != c || a2 != a {
                            assert(edge_index(c2, a2) != edge_index(c as int, a as int));
                            assert(self.open@[edge_index(c2, a2)] == before[edge_index(c2, a2)]);
                        }
                    }
                }
                a = a + 1;
            }
            c = c + 1;
        }
    }

    /// Removes the shape outside the ball inscribed in the lattice: a cell
    /// stays inside only if it was inside and lies in the ball, and every edge
    /// with an end outside is closed.
    pub fn circle(&mut self)
        requires
            old(self).wf(),
        ensures
            final(self).wf(),
            final(self).half_size == old(self).half_size,
            forall|c: int|
                0 <= c < cells(old(self).n()) ==> #[trigger] final(self).inside@[c] == (old(self).inside@[c] && in_sphere(old(self).half_size as int, c)),
            opens_more(final(self).open@, old(self).open@),
            forall|c: int, a: int|
                0 <= c < cells(old(self).n()) && 0 <= a < 3 ==> #[trigger] is_open_edge(
                    final(self).n(),
                    final(self).open@,
                    c,
                    a,
                ) == (is_open_edge(old(self).n(), old(self).open@, c, a) && final(self).inside@[c]
                    && final(self).inside@[c + stride(old(self).n(), a)]),
            closed_outside(final(self).n(), final(self).inside@, final(self).open@),
            forall|c: int|
                0 <= c < cells(final(self).n()) && !(#[trigger] final(self).inside@[c]) ==> degree(
                    final(self).n(),
                    final(self).open@,
                    c,
                ) == 0,
    {
        let ghost nn = self.n();
        proof {
            lemma_cells_bound(nn);
        }
        let n = self.side();
        let count = self.cell_total();
        let h = self.half_size as i64;
        let mut c: usize = 0;
        while c < count
            invariant
                self.wf(),
                nn == self.n(),
                n == nn,
                h == self.half_size,
                count == cells(nn),
                self.half_size == old(self).half_size,
                self.open@ == old(self).open@,
                c <= count,
                forall|c2: int|
                    0 <= c2 < count ==> #[trigger] self.inside@[c2] == if c2 < c {
                        old(self).inside@[c2] && in_sphere(h as int, c2)
                    } else {
                        old(self).inside@[c2]
                    },
            decreases count - c,
        {
            let dx = coord_of(n, c, 0) as i64 - h;
            let dy = coord_of(n, c, 1) as i64 - h;
            let dz = coord_of(n, c, 2) as i64 - h;
            assert(dx * dx <= 1002001 && dy * dy <= 1002001 && dz * dz <= 1002001 && h * h <= 1002001)
                by (nonlinear_arith)
                requires
                    -1001 <= dx <= 1001,
                    -1001 <= dy <= 1001,
                    -1001 <= dz <= 1001,
                    0 <= h <= 1001,
            ;
            assert(0 <= dx * dx && 0 <= dy * dy && 0 <= dz * dz) by (nonlinear_arith);
            if !(dx * dx + dy * dy + dz * dz <= h * h) {
                self.inside.set(c, false);
            }
            c = c + 1;
        }
        let ghost o1 = self.open@;
        self.close_outside_edges();
        proof {
            assert forall|c2: int|
                0 <= c2 < cells(self.n()) && !(#[trigger] self.inside@[c2]) implies degree(
                self.n(),
                self.open@,
                c2,
            ) == 0 by {
                self.lemma_outside_isolated(c2);
            }
        }
    }

    /// Closes every edge at cell `x` and takes `x` out of the shape.
    pub fn isolate(&mut self, x: usize)
        requires
            old(self).wf(),
            x < cells(old(self).n()),
        ensures
            final(self).wf(),
            final(self).half_size == old(self).half_size,
            final(self).inside@ == old(self).inside@.update(x as int, false),
            opens_more(final(self).open@, old(self).open@),
            forall|c: int, a: int|
                0 <= c < cells(old(self).n()) && 0 <= a < 3 ==> #[trigger] final(self).open@[edge_index(c, a)] == (old(self).open@[edge_index(c, a)] && !touches(
                    old(self).n(),
                    c,
                    a,
                    x as int,
                )),
            degree(final(self).n(), final(self).open@, x as int) == 0,
            degree(old(self).n(), old(self).open@, x as int) == 0 ==> final(self).open@ == old(self).open@,
            degree(old(self).n(), old(self).open@, x as int) <= 1 ==> keeps_links(
                old(self).n(),
                old(self).open@,
                final(self).open@,
                final(self).inside@,
            ),
            closed_outside(old(self).n(), old(self).inside@, old(self).open@) ==> closed_outside(
                final(self).n(),
                final(self).inside@,
                final(self).open@,
            ),
    {
        let ghost nn = self.n();
        proof {
            lemma_cells_bound(nn);
        }
        let n = self.side();
        let count = self.cell_total();
        let mut a: usize = 0;
        while a < 3
            invariant
                self.wf(),
                nn == self.n(),
                n == nn,
                count == cells(nn),
                3 * count <= usize::MAX,
                x < count,
                a <= 3,
                self.half_size == old(self).half_size,
                self.inside@ == old(self).inside@,
                opens_more(self.open@, old(self).open@),
                degree(nn, old(self).open@, x as int) == 0 ==> self.open@ == old(self).open@,
                forall|c: int, a2: int|
                    0 <= c < count && 0 <= a2 < 3 ==> #[trigger] self.open@[edge_index(c, a2)] == (old(self).open@[edge_index(c, a2)] && !(a2 < a && touches(nn, c, a2, x as int))),
            decreases 3 - a,
        {
            proof {
                if degree(nn, old(self).open@, x as int) == 0 && self.open@[3 * x + a] {
                    assert(self.open@ == old(self).open@);
                    assert(old(self).open@[edge_index(x as int, a as int)]);
                    assert(edge_valid(nn, x as int, a as int));
                    assert(is_open_edge(nn, old(self).open@, x as int, a as int));
                }
            }
            self.open.set(3 * x + a, false);
            proof {
                if degree(nn, old(self).open@, x as int) == 0 {
                    assert(self.open@ =~= old(self).open@);
                }
            }
            if coord_of(n, x, a) > 0 {
                proof {
                    lemma_step_back(nn, x as int, a as int);
                }
                let b = x - stride_of(n, a);
                proof {
                    if degree(nn, old(self).open@, x as int) == 0 && self.open@[3 * b + a] {
                        assert(self.open@ == old(self).open@);
                        assert(old(self).open@[edge_index(b as int, a as int)]);
                        assert(edge_valid(nn, b as int, a as int));
                        assert(is_open_back(nn, old(self).open@, x as int, a as int));
                    }
                }
                self.open.set(3 * b + a, false);
                proof {
                    if degree(nn, old(self).open@, x as int) == 0 {
                        assert(self.open@ =~= old(self).open@);
                    }
                }
            } else {
                proof {
                    lemma_no_back_edge(nn, x as int, a as int);
                }
            }
            a = a + 1;
        }
        self.inside.set(x, false);
        proof {
            let o = self.open@;
            assert forall|a2: int| 0 <= a2 < 3 implies !is_open_edge(nn, o, x as int, a2)
                && !is_open_back(nn, o, x as int, a2) by {
                assert(touches(nn, x as int, a2, x as int));
                if is_open_back(nn, o, x as int, a2) {
                    let b = x - stride(nn, a2);
                    assert(touches(nn, b, a2, x as int));
                }
            }
            if degree(nn, old(self).open@, x as int) <= 1 {
                assert forall|c: int, a2: int|
                    0 <= c < cells(nn) && 0 <= a2 < 3 implies #[trigger] is_open_edge(nn, o, c, a2) == (
                    is_open_edge(nn, old(self).open@, c, a2) && !touches(nn, c, a2, x as int)) by {
                    assert(o[edge_index(c, a2)] == (old(self).open@[edge_index(c, a2)] && !touches(
                        nn,
                        c,
                        a2,
                        x as int,
                    )));
                }
                assert forall|u: int, v: int|
                    0 <= u < cells(nn) && 0 <= v < cells(nn) && self.inside@[u] && self.inside@[v]
                        && #[trigger] reach(nn, old(self).open@, u, v) implies #[trigger] reach(
                    nn,
                    o,
                    u,
                    v,
                ) by {
                    lemma_leaf_removal_keeps_reach(nn, old(self).open@, o, x as int, u, v);
                }
            }
            if closed_outside(nn, old(self).inside@, old(self).open@) {
                assert forall|c: int, a2: int| #[trigger] is_open_edge(nn, o, c, a2) implies self.inside@[c]
                    && self.inside@[c + stride(nn, a2)] by {
                    assert(self.open@[edge_index(c, a2)]);
                    assert(is_open_edge(nn, old(self).open@, c, a2));
                    assert(!touches(nn, c, a2, x as int));
                    assert(c != x && c + stride(nn, a2) != x);
                    lemma_step(nn, c, a2);
                    assert(old(self).inside@[c] && old(self).inside@[c + stride(nn, a2)]);
                }
            }
        }
    }

    /// One sweep over the cells in index order: each cell that has exactly one
    /// open edge when its turn comes is closed off. Returns whether the maze
    /// had a dead end; when it had none, nothing changes.
    pub fn fill_dead_corridors(&mut self) -> (r: bool)
        requires
            old(self).wf(),
        ensures
            final(self).wf(),
            final(self).half_size == old(self).half_size,
            r == old(self).has_dead_end(),
            final(self).open@ == swept_open(old(self).n(), old(self).open@, cells(old(self).n())),
            forall|c: int|
                0 <= c < cells(old(self).n()) ==> #[trigger] final(self).inside@[c] == (old(self).inside@[c]
                    && degree(old(self).n(), swept_open(old(self).n(), old(self).open@, c), c) != 1),
            !r ==> final(self).open@ == old(self).open@ && final(self).inside@ == old(self).inside@,
            r ==> count_open(final(self).open@) < count_open(old(self).open@),
            keeps_links(old(self).n(), old(self).open@, final(self).open@, final(self).inside@),
            exists|gone: Seq<int>|
                {
                    &&& peels(old(self).n(), old(self).open@, gone)
                    &&& final(self).open@ == without(old(self).n(), old(self).open@, gone)
                    &&& forall|c: int|
                        0 <= c < cells(old(self).n()) ==> #[trigger] final(self).inside@[c] == (old(self).inside@[c] && !gone.contains(c))
                },
            opens_more(final(self).open@, old(self).open@),
            forall|c: int|
                0 <= c < cells(old(self).n()) && #[trigger] final(self).inside@[c] ==> old(self).inside@[c],
            closed_outside(old(self).n(), old(self).inside@, old(self).open@) ==> closed_outside(
                final(self).n(),
                final(self).inside@,
                final(self).open@,
            ),
    {
        let ghost nn = self.n();
        let count = self.cell_total();
        let mut changed = false;
        let ghost mut gone: Seq<int> = Seq::empty();
        proof {
            lemma_without_empty(nn, old(self).open@);
        }
        let mut c: usize = 0;
        while c < count
            invariant
                self.wf(),
                nn == self.n(),
                count == cells(nn),
                c <= count,
                self.half_size == old(self).half_size,
                opens_more(self.open@, old(self).open@),
                forall|c2: int|
                    0 <= c2 < count && #[trigger] self.inside@[c2] ==> old(self).inside@[c2],
                closed_outside(nn, old(self).inside@, old(self).open@) ==> closed_outside(
                    nn,
                    self.inside@,
                    self.open@,
                ),
                changed ==> old(self).has_dead_end(),
                keeps_links(nn, old(self).open@, self.open@, self.inside@),
                peels(nn, old(self).open@, gone),
                self.open@ == without(nn, old(self).open@, gone),
                forall|c2: int|
                    0 <= c2 < count ==> #[trigger] self.inside@[c2] == (old(self).inside@[c2]
                        && !gone.contains(c2)),
                changed ==> count_open(self.open@) < count_open(old(self).open@),
                !changed ==> self.open@ == old(self).open@ && self.inside@ == old(self).inside@,
                !changed ==> forall|c2: int|
                    0 <= c2 < c ==> #[trigger] degree(nn, old(self).open@, c2) != 1,
                self.open@ == swept_open(nn, old(self).open@, c as int),
                forall|c2: int|
                    0 <= c2 < count ==> #[trigger] self.inside@[c2] == (old(self).inside@[c2] && !(c2
                        < c && degree(nn, swept_open(nn, old(self).open@, c2), c2) == 1)),
            decreases count - c,
        {
            if self.degree(c) == 1 {
                let ghost o0 = self.open@;
                let ghost i0 = self.inside@;
                proof {
                    if !changed {
                        assert(degree(old(self).n(), old(self).open@, c as int) == 1);
                        assert(old(self).has_dead_end());
                    }
                    let a2 = choose|a2: int|
                        0 <= a2 < 3 && (is_open_edge(nn, o0, c as int, a2) || is_open_back(
                            nn,
                            o0,
                            c as int,
                            a2,
                        ));
                }
                self.isolate(c);
                proof {
                    let a2 = choose|a2: int|
                        0 <= a2 < 3 && (is_open_edge(nn, o0, c as int, a2) || is_open_back(
                            nn,
                            o0,
                            c as int,
                            a2,
                        ));
                    let j = if is_open_edge(nn, o0, c as int, a2) {
                        edge_index(c as int, a2)
                    } else {
                        edge_index(c - stride(nn, a2), a2)
                    };
                    if !is_open_edge(nn, o0, c as int, a2) {
                        assert(touches(nn, c - stride(nn, a2), a2, c as int));
                    } else {
                        assert(touches(nn, c as int, a2, c as int));
                    }
                    assert(o0[j] && !self.open@[j]);
                    lemma_count_open_sub(self.open@, o0);
                    lemma_keeps_links_trans(nn, old(self).open@, o0, self.open@, i0, self.inside@);
                    let step = seq![c as int];
                    lemma_without_empty(nn, o0);
                    assert(step.subrange(0, 0) =~= Seq::<int>::empty());
                    assert(peels(nn, o0, step));
                    lemma_peels_concat(nn, old(self).open@, gone, step);
                    lemma_isolate_is_without(nn, o0, self.open@, c as int);
                    lemma_without_concat(nn, old(self).open@, gone, step);
                    assert(swept_open(nn, old(self).open@, c + 1) == without(nn, o0, seq![c as int]));
                    let g2 = gone + step;
                    assert forall|c2: int|
                        0 <= c2 < count implies #[trigger] self.inside@[c2] == (old(self).inside@[c2]
                            && !g2.contains(c2)) by {
                        if g2.contains(c2) && c2 != c {
                            let j = choose|j: int| 0 <= j < g2.len() && g2[j] == c2;
                            assert(gone[j] == c2);
                        }
                        if gone.contains(c2) {
                            let j = choose|j: int| 0 <= j < gone.len() && gone[j] == c2;
                            assert(g2[j] == c2);
                        }
                        assert(g2[gone.len() as int] == c);
                    }
                    gone = g2;
                }
                changed = true;
            } else {
                assert(swept_open(nn, old(self).open@, c + 1) == self.open@);
            }
            c = c + 1;
        }
        changed
    }

    /// Sweeps until no cell has exactly one open edge.
    pub fn fill_all_dead_corridors(&mut self)
        requires
            old(self).wf(),
        ensures
            final(self).wf(),
            final(self).half_size == old(self).half_size,
            !final(self).has_dead_end(),
            opens_more(final(self).open@, old(self).open@),
            keeps_links(old(self).n(), old(self).open@, final(self).open@, final(self).inside@),
            exists|gone: Seq<int>|
                {
                    &&& peels(old(self).n(), old(self).open@, gone)
                    &&& final(self).open@ == without(old(self).n(), old(self).open@, gone)
                    &&& forall|c: int|
                        0 <= c < cells(old(self).n()) ==> #[trigger] final(self).inside@[c] == (old(self).inside@[c] && !gone.contains(c))
                },
            forall|c: int|
                0 <= c < cells(old(self).n()) && #[trigger] final(self).inside@[c] ==> old(self).inside@[c],
            closed_outside(old(self).n(), old(self).inside@, old(self).open@) ==> closed_outside(
                final(self).n(),
                final(self).inside@,
                final(self).open@,
            ),
    {
        let ghost nn = self.n();
        let mut changed = true;
        let ghost mut gone: Seq<int> = Seq::empty();
        proof {
            lemma_without_empty(nn, old(self).open@);
        }
        while changed
            invariant
                self.wf(),
                nn == self.n(),
                self.half_size == old(self).half_size,
                !changed ==> !self.has_dead_end(),
                opens_more(self.open@, old(self).open@),
                keeps_links(nn, old(self).open@, self.open@, self.inside@),
                peels(nn, old(self).open@, gone),
                self.open@ == without(nn, old(self).open@, gone),
                forall|c: int|
                    0 <= c < cells(nn) ==> #[trigger] self.inside@[c] == (old(self).inside@[c]
                        && !gone.contains(c)),
                forall|c: int|
                    0 <= c < cells(nn) && #[trigger] self.inside@[c] ==> old(self).inside@[c],
                closed_outside(nn, old(self).inside@, old(self).open@) ==> closed_outside(
                    nn,
                    self.inside@,
                    self.open@,
                ),
            decreases count_open(self.open@) + if changed {
                1int
            } else {
                0int
            },
        {
            let ghost before = self.open@;
            let ghost ins_before = self.inside@;
            changed = self.fill_dead_corridors();
            proof {
                lemma_keeps_links_trans(nn, old(self).open@, before, self.open@, ins_before, self.inside@);
                let step = choose|g: Seq<int>|
                    {
                        &&& peels(nn, before, g)
                        &&& self.open@ == without(nn, before, g)
                        &&& forall|c: int|
                            0 <= c < cells(nn) ==> #[trigger] self.inside@[c] == (ins_before[c]
                                && !g.contains(c))
                    };
                lemma_peels_concat(nn, old(self).open@, gone, step);
                lemma_without_concat(nn, old(self).open@, gone, step);
                assert forall|c: int|
                    0 <= c < cells(nn) implies #[trigger] self.inside@[c] == (old(self).inside@[c]
                        && !(gone + step).contains(c)) by {
                    lemma_contains_concat(gone, step, c);
                }
                gone = gone + step;
                assert forall|i: int| 0 <= i < old(self).open@.len() && #[trigger] self.open@[i] implies old(self).open@[i] by {
                    assert(before[i]);
                }
                lemma_count_open_sub(self.open@, before);
            }
        }
    }
    /// One trimming pass over the cells in index order: each inside cell on a
    /// face of the lattice that has at most one open edge when its turn comes
    /// is closed off.
    fn reduce_pass(&mut self)
        requires
            old(self).wf(),
        ensures
            final(self).wf(),
            final(self).half_size == old(self).half_size,
            opens_more(final(self).open@, old(self).open@),
            forall|c: int|
                0 <= c < cells(old(self).n()) && #[trigger] final(self).inside@[c] ==> old(self).inside@[c],
            forall|c: int|
                0 <= c < cells(old(self).n()) && old(self).inside@[c] && !(#[trigger] final(self).inside@[c])
                    ==> on_face(old(self).n(), c),
            closed_outside(old(self).n(), old(self).inside@, old(self).open@) ==> closed_outside(
                final(self).n(),
                final(self).inside@,
                final(self).open@,
            ),
            !old(self).has_dead_end() ==> final(self).open@ == old(self).open@,
            keeps_links(old(self).n(), old(self).open@, final(self).open@, final(self).inside@),
            forall|c: int|
                0 <= c < cells(old(self).n()) && old(self).inside@[c] && on_face(old(self).n(), c)
                    && degree(old(self).n(), old(self).open@, c) <= 1 ==> !(#[trigger] final(self).inside@[c]),
            (final(self).open@, final(self).inside@) == trimmed(
                old(self).n(),
                old(self).open@,
                old(self).inside@,
                cells(old(self).n()),
            ),
    {
        let ghost nn = self.n();
        let n = self.side();
        let count = self.cell_total();
        let mut c: usize = 0;
        while c < count
            invariant
                self.wf(),
                nn == self.n(),
                n == nn,
                count == cells(nn),
                c <= count,
                self.half_size == old(self).half_size,
                opens_more(self.open@, old(self).open@),
                forall|c2: int|
                    0 <= c2 < count && #[trigger] self.inside@[c2] ==> old(self).inside@[c2],
                forall|c2: int|
                    0 <= c2 < count && old(self).inside@[c2] && !(#[trigger] self.inside@[c2])
                        ==> on_face(nn, c2),
                closed_outside(nn, old(self).inside@, old(self).open@) ==> closed_outside(
                    nn,
                    self.inside@,
                    self.open@,
                ),
                !old(self).has_dead_end() ==> self.open@ == old(self).open@,
                keeps_links(nn, old(self).open@, self.open@, self.inside@),
                forall|c2: int|
                    0 <= c2 < c && old(self).inside@[c2] && on_face(nn, c2) && degree(
                        nn,
                        old(self).open@,
                        c2,
                    ) <= 1 ==> !(#[trigger] self.inside@[c2]),
                (self.open@, self.inside@) == trimmed(nn, old(self).open@, old(self).inside@, c as int),
            decreases count - c,
        {
            let mut face = false;
            let mut a: usize = 0;
            while a < 3
                invariant
                    1 <= n,
                    n == nn,
                    c < count,
                    count == cells(nn),
                    nn <= 1001,
                    a <= 3,
                    face == exists|a2: int|
                        0 <= a2 < a && (#[trigger] coord(nn, c as int, a2) == 0 || coord(nn, c as int, a2) == nn - 1),
                decreases 3 - a,
            {
                let x = coord_of(n, c, a);
                if x == 0 || x + 1 == n {
                    assert(coord(nn, c as int, a as int) == 0 || coord(nn, c as int, a as int) == nn - 1);
                    face = true;
                }
                a = a + 1;
            }
            proof {
                lemma_degree_mono(nn, self.open@, old(self).open@, c as int);
            }
            if face && self.inside[c] && self.degree(c) <= 1 {
                let ghost before = self.open@;
                let ghost ins_before = self.inside@;
                proof {
                    if !old(self).has_dead_end() {
                        assert(degree(old(self).n(), old(self).open@, c as int) != 1);
                    }
                }
                self.isolate(c);
                proof {
                    assert forall|i: int| 0 <= i < old(self).open@.len() && #[trigger] self.open@[i] implies old(self).open@[i] by {
                        assert(before[i]);
                    }
                    lemma_keeps_links_trans(nn, old(self).open@, before, self.open@, ins_before, self.inside@);
                    lemma_isolate_is_without(nn, before, self.open@, c as int);
                    assert(on_face(nn, c as int));
                }
            } else {
                proof {
                    if self.inside@[c as int] && degree(nn, self.open@, c as int) <= 1 {
                        assert(!on_face(nn, c as int));
                    }
                }
            }
            c = c + 1;
        }
    }

    /// Applies `passes` trimming passes to the outer layer. With no pass the
    /// maze is left as it is.
    pub fn reduce(&mut self, passes: usize)
        requires
            old(self).wf(),
        ensures
            final(self).wf(),
            final(self).half_size == old(self).half_size,
            passes == 0 ==> final(self).open@ == old(self).open@ && final(self).inside@ == old(self).inside@,
            opens_more(final(self).open@, old(self).open@),
            forall|c: int|
                0 <= c < cells(old(self).n()) && #[trigger] final(self).inside@[c] ==> old(self).inside@[c],
            forall|c: int|
                0 <= c < cells(old(self).n()) && old(self).inside@[c] && !(#[trigger] final(self).inside@[c])
                    ==> on_face(old(self).n(), c),
            closed_outside(old(self).n(), old(self).inside@, old(self).open@) ==> closed_outside(
                final(self).n(),
                final(self).inside@,
                final(self).open@,
            ),
            !old(self).has_dead_end() ==> final(self).open@ == old(self).open@,
            keeps_links(old(self).n(), old(self).open@, final(self).open@, final(self).inside@),
            (final(self).open@, final(self).inside@) == trim_passes(
                old(self).n(),
                old(self).open@,
                old(self).inside@,
                passes as int,
            ),
            passes > 0 ==> forall|c: int|
                0 <= c < cells(old(self).n()) && old(self).inside@[c] && on_face(old(self).n(), c)
                    && degree(old(self).n(), old(self).open@, c) <= 1 ==> !(#[trigger] final(self).inside@[c]),
    {
        let ghost nn = self.n();
        let mut k: usize = 0;
        while k < passes
            invariant
                self.wf(),
                nn == self.n(),
                k <= passes,
                self.half_size == old(self).half_size,
                k == 0 ==> self.open@ == old(self).open@ && self.inside@ == old(self).inside@,
                opens_more(self.open@, old(self).open@),
                forall|c: int|
                    0 <= c < cells(nn) && #[trigger] self.inside@[c] ==> old(self).inside@[c],
                forall|c: int|
                    0 <= c < cells(nn) && old(self).inside@[c] && !(#[trigger] self.inside@[c])
                        ==> on_face(nn, c),
                closed_outside(nn, old(self).inside@, old(self).open@) ==> closed_outside(
                    nn,
                    self.inside@,
                    self.open@,
                ),
                !old(self).has_dead_end() ==> self.open@ == old(self).open@,
                keeps_links(nn, old(self).open@, self.open@, self.inside@),
                (self.open@, self.inside@) == trim_passes(nn, old(self).open@, old(self).inside@, k as int),
                k > 0 ==> forall|c: int|
                    0 <= c < cells(nn) && old(self).inside@[c] && on_face(nn, c) && degree(
                        nn,
                        old(self).open@,
                        c,
                    ) <= 1 ==> !(#[trigger] self.inside@[c]),
            decreases passes - k,
        {
            let ghost before = self.open@;
            let ghost ins_before = self.inside@;
            proof {
                if !old(self).has_dead_end() {
                    assert(self.open@ == old(self).open@);
                    assert(self.n() == old(self).n());
                    assert(!self.has_dead_end());
                }
            }
            self.reduce_pass();
            proof {
                assert forall|c: int|
                    0 <= c < cells(nn) && old(self).inside@[c] && on_face(nn, c) && degree(
                        nn,
                        old(self).open@,
                        c,
                    ) <= 1 implies !(#[trigger] self.inside@[c]) by {
                    if k > 0 {
                        assert(!ins_before[c]);
                    } else {
                        assert(ins_before[c]);
                        assert(before == old(self).open@);
                    }
                }
                lemma_keeps_links_trans(nn, old(self).open@, before, self.open@, ins_before, self.inside@);
                assert forall|i: int| 0 <= i < old(self).open@.len() && #[trigger] self.open@[i] implies old(self).open@[i] by {
                    assert(before[i]);
                }
                assert forall|c: int|
                    0 <= c < cells(nn) && old(self).inside@[c] && !(#[trigger] self.inside@[c]) implies on_face(nn, c) by {
                    assert(ins_before[c] || on_face(nn, c));
                }
            }
            k = k + 1;
        }
    }
}

} // verus!
