//! The region cleaner: keeps the largest connected region of inside cells and
//! fills every other one.
use crate::components::{
    all_open_settled, label_components, labels_ok, lemma_reach_same_label, lemma_same_label_reach,
    lemma_walk_same_label,
};
use crate::graph::{is_open_edge, is_walk, joins, opens_more, reach};
use crate::lattice::{cells, lemma_cells_bound, lemma_step, stride};
use crate::maze::Maze;
use crate::shaping::closed_outside;
use vstd::prelude::*;

verus! {

/// Number of cells below `k` that are inside and reach `r` along open edges.
pub open spec fn count_reaching(n: int, ins: Seq<bool>, o: Seq<bool>, r: int, k: int) -> nat
    decreases k,
{
    if k <= 0 {
        0
    } else {
        count_reaching(n, ins, o, r, k - 1) + if ins[k - 1] && reach(n, o, k - 1, r) {
            1nat
        } else {
            0nat
        }
    }
}

/// Number of inside cells in the connected region of cell `r`.
pub open spec fn region_size(n: int, ins: Seq<bool>, o: Seq<bool>, r: int) -> nat {
    count_reaching(n, ins, o, r, cells(n))
}

/// Number of cells below `k` that are inside and carry label `lab`.
pub open spec fn count_label(ins: Seq<bool>, l: Seq<usize>, lab: int, k: int) -> nat
    decreases k,
{
    if k <= 0 {
        0
    } else {
        count_label(ins, l, lab, k - 1) + if ins[k - 1] && l[k - 1] == lab {
            1nat
        } else {
            0nat
        }
    }
}

proof fn lemma_count_label_bounds(ins: Seq<bool>, l: Seq<usize>, lab: int, k: int, j: int)
    requires
        0 <= k,
    ensures
        count_label(ins, l, lab, k) <= k,
        0 <= j < k && ins[j] && l[j] == lab ==> count_label(ins, l, lab, k) >= 1,
    decreases k,
{
    if k > 0 {
        lemma_count_label_bounds(ins, l, lab, k - 1, j);
    }
}

/// Region sizes can be read off the labels once they describe reachability.
proof fn lemma_region_size_by_label(
    n: int,
    ins: Seq<bool>,
    o: Seq<bool>,
    l: Seq<usize>,
    r: int,
    k: int,
)
    requires
        1 <= n,
        labels_ok(n, o, l),
        all_open_settled(n, o, l),
        0 <= r < cells(n),
        0 <= k <= cells(n),
    ensures
        count_reaching(n, ins, o, r, k) == count_label(ins, l, l[r] as int, k),
    decreases k,
{
    if k > 0 {
        lemma_region_size_by_label(n, ins, o, l, r, k - 1);
        let c = k - 1;
        if reach(n, o, c, r) {
            lemma_reach_same_label(n, o, l, c, r);
        }
        if l[c] == l[r] {
            lemma_same_label_reach(n, o, l, c, r);
        }
    }
}

/// A walk inside the kept label stays a walk once the other cells are filled.
proof fn lemma_walk_kept(
    n: int,
    o1: Seq<bool>,
    o2: Seq<bool>,
    ins1: Seq<bool>,
    ins2: Seq<bool>,
    l: Seq<usize>,
    best: int,
    p: Seq<int>,
    e: Seq<(int, int)>,
)
    requires
        1 <= n,
        labels_ok(n, o1, l),
        all_open_settled(n, o1, l),
        closed_outside(n, ins1, o1),
        is_walk(n, o1, p, e),
        0 <= p[0] < cells(n),
        l[p[0]] == best,
        ins2.len() == cells(n),
        forall|c: int| 0 <= c < cells(n) ==> #[trigger] ins2[c] == (ins1[c] && l[c] == best),
        forall|c: int, a: int|
            0 <= c < cells(n) && 0 <= a < 3 ==> #[trigger] is_open_edge(n, o2, c, a) == (
            is_open_edge(n, o1, c, a) && ins2[c] && ins2[c + stride(n, a)]),
    ensures
        is_walk(n, o2, p, e),
{
    assert forall|i: int| 0 <= i < e.len() implies #[trigger] joins(
        n,
        o2,
        e[i].0,
        e[i].1,
        p[i],
        p[i + 1],
    ) by {
        assert(joins(n, o1, e[i].0, e[i].1, p[i], p[i + 1]));
        let c = e[i].0;
        let a = e[i].1;
        lemma_step(n, c, a);
        lemma_walk_same_label(n, o1, l, p, e, i);
        lemma_walk_same_label(n, o1, l, p, e, i + 1);
        assert(is_open_edge(n, o1, c, a));
        assert(ins1[c] && ins1[c + stride(n, a)]);
        assert(ins2[c] && ins2[c + stride(n, a)]);
        assert(is_open_edge(n, o2, c, a));
    }
}

impl Maze {
    /// Keeps the largest connected region of inside cells and fills every other
    /// one: its cells leave the shape and their edges close. Where regions tie,
    /// the one holding the lowest-indexed cell among them is kept.
    ///
    /// Edges with an end outside the shape are closed first; when there were
    /// none, the kept region is a whole region of the maze as it was, and no
    /// inside region of it was larger.
    pub fn fill_smallests(&mut self)
        requires
            old(self).wf(),
        ensures
            final(self).wf(),
            final(self).half_size == old(self).half_size,
            opens_more(final(self).open@, old(self).open@),
            forall|c: int|
                0 <= c < cells(old(self).n()) && #[trigger] final(self).inside@[c] ==> old(self).inside@[c],
            closed_outside(final(self).n(), final(self).inside@, final(self).open@),
            forall|c: int, a: int|
                0 <= c < cells(old(self).n()) && 0 <= a < 3 ==> #[trigger] is_open_edge(
                    final(self).n(),
                    final(self).open@,
                    c,
                    a,
                ) == (is_open_edge(old(self).n(), old(self).open@, c, a) && final(self).inside@[c]
                    && final(self).inside@[c + stride(old(self).n(), a)]),
            forall|u: int, v: int|
                0 <= u < cells(final(self).n()) && 0 <= v < cells(final(self).n())
                    && #[trigger] final(self).inside@[u] && #[trigger] final(self).inside@[v] ==> reach(
                    final(self).n(),
                    final(self).open@,
                    u,
                    v,
                ),
            (exists|c: int| 0 <= c < cells(old(self).n()) && #[trigger] old(self).inside@[c]) ==> (exists|
                u: int,
            | 0 <= u < cells(old(self).n()) && #[trigger] final(self).inside@[u]),
            closed_outside(old(self).n(), old(self).inside@, old(self).open@) ==> forall|u: int, v: int|
                0 <= u < cells(old(self).n()) && #[trigger] final(self).inside@[u] && old(self).inside@[v]
                    && #[trigger] reach(old(self).n(), old(self).open@, u, v) ==> final(self).inside@[v],
            closed_outside(old(self).n(), old(self).inside@, old(self).open@) ==> forall|c: int, u: int|
                0 <= c < cells(old(self).n()) && 0 <= u < cells(old(self).n()) && old(self).inside@[c]
                    && #[trigger] final(self).inside@[u] ==> #[trigger] region_size(
                    old(self).n(),
                    old(self).inside@,
                    old(self).open@,
                    c,
                ) <= region_size(old(self).n(), old(self).inside@, old(self).open@, u),
            closed_outside(old(self).n(), old(self).inside@, old(self).open@) ==> forall|c: int, u: int|
                0 <= c < cells(old(self).n()) && 0 <= u < cells(old(self).n()) && old(self).inside@[c]
                    && !final(self).inside@[c] && #[trigger] final(self).inside@[u] && #[trigger] region_size(
                    old(self).n(),
                    old(self).inside@,
                    old(self).open@,
                    c,
                ) == region_size(old(self).n(), old(self).inside@, old(self).open@, u) ==> exists|k: int|
                    0 <= k < c && #[trigger] final(self).inside@[k],
    {
        let ghost nn = self.n();
        let ghost ins0 = self.inside@;
        proof {
            lemma_cells_bound(nn);
        }
        self.close_outside_edges();
        let ghost o1 = self.open@;
        let n = self.side();
        let count = self.cell_total();
        let l = label_components(n, &self.open);
        let mut sizes: Vec<usize> = Vec::new();
        let mut i: usize = 0;
        while i < count
            invariant
                sizes@.len() == i,
                i <= count,
                forall|j: int| 0 <= j < i ==> #[trigger] sizes@[j] == 0,
            decreases count - i,
        {
            sizes.push(0);
            i = i + 1;
        }
        let mut c: usize = 0;
        while c < count
            invariant
                self.wf(),
                nn == self.n(),
                count == cells(nn),
                self.inside@ == ins0,
                labels_ok(nn, o1, l@),
                sizes@.len() == count,
                c <= count,
                forall|lab: int|
                    0 <= lab < count ==> #[trigger] sizes@[lab] == count_label(ins0, l@, lab, c as int),
            decreases count - c,
        {
            if self.inside[c] {
                let lab = l[c];
                proof {
                    lemma_count_label_bounds(ins0, l@, lab as int, c as int, 0);
                }
                let v = sizes[lab] + 1;
                sizes.set(lab, v);
            }
            c = c + 1;
        }
        let mut best: usize = count;
        let mut best_size: usize = 0;
        let ghost mut seen: int = -1;
        c = 0;
        while c < count
            invariant
                self.wf(),
                nn == self.n(),
                count == cells(nn),
                self.inside@ == ins0,
                labels_ok(nn, o1, l@),
                sizes@.len() == count,
                c <= count,
                forall|lab: int|
                    0 <= lab < count ==> #[trigger] sizes@[lab] == count_label(ins0, l@, lab, count as int),
                forall|c2: int| 0 <= c2 < c && ins0[c2] ==> sizes@[#[trigger] l@[c2] as int] <= best_size,
                best_size > 0 ==> 0 <= seen < c && ins0[seen] && l@[seen] == best && sizes@[best as int]
                    == best_size,
                best_size == 0 ==> best == count,
                best_size > 0 ==> forall|c2: int|
                    0 <= c2 < seen && ins0[c2] ==> sizes@[#[trigger] l@[c2] as int] < best_size,
                forall|c2: int| 0 <= c2 < c && #[trigger] ins0[c2] ==> best_size > 0,
            decreases count - c,
        {
            if self.inside[c] {
                let lab = l[c];
                proof {
                    lemma_count_label_bounds(ins0, l@, lab as int, count as int, c as int);
                }
                if sizes[lab] > best_size {
                    best = lab;
                    best_size = sizes[lab];
                    proof {
                        seen = c as int;
                    }
                }
            }
            c = c + 1;
        }
        c = 0;
        while c < count
            invariant
                self.wf(),
                nn == self.n(),
                count == cells(nn),
                self.half_size == old(self).half_size,
                self.open@ == o1,
                l@.len() == count,
                c <= count,
                forall|c2: int|
                    0 <= c2 < count ==> #[trigger] self.inside@[c2] == if c2 < c {
                        ins0[c2] && l@[c2] == best
                    } else {
                        ins0[c2]
                    },
            decreases count - c,
        {
            if self.inside[c] && l[c] != best {
                self.inside.set(c, false);
            }
            c = c + 1;
        }
        let ghost ins2 = self.inside@;
        self.close_outside_edges();
        proof {
            let o2 = self.open@;
            assert forall|c2: int, a2: int|
                0 <= c2 < cells(nn) && 0 <= a2 < 3 implies #[trigger] is_open_edge(nn, o2, c2, a2) == (
                is_open_edge(nn, old(self).open@, c2, a2) && ins2[c2] && ins2[c2 + stride(nn, a2)]) by {
                if is_open_edge(nn, old(self).open@, c2, a2) {
                    lemma_step(nn, c2, a2);
                    assert(is_open_edge(nn, o1, c2, a2) == (ins0[c2] && ins0[c2 + stride(nn, a2)]));
                }
            }
            assert forall|u: int, v: int|
                0 <= u < cells(nn) && 0 <= v < cells(nn) && #[trigger] ins2[u] && #[trigger] ins2[v] implies reach(
                nn,
                o2,
                u,
                v,
            ) by {
                lemma_same_label_reach(nn, o1, l@, u, v);
                let (p, e) = choose|p: Seq<int>, e: Seq<(int, int)>|
                    #[trigger] is_walk(nn, o1, p, e) && p[0] == u && p[p.len() - 1] == v;
                lemma_walk_kept(nn, o1, o2, ins0, ins2, l@, best as int, p, e);
            }
            if exists|c2: int| 0 <= c2 < cells(nn) && #[trigger] ins0[c2] {
                let c2 = choose|c2: int| 0 <= c2 < cells(nn) && #[trigger] ins0[c2];
                assert(ins0[c2]);
                assert(ins2[seen]);
            }
            if closed_outside(nn, ins0, old(self).open@) {
                assert(o1 == old(self).open@);
                assert forall|u: int, v: int|
                    0 <= u < cells(nn) && #[trigger] ins2[u] && ins0[v] && #[trigger] reach(
                        nn,
                        o1,
                        u,
                        v,
                    ) implies ins2[v] by {
                    lemma_reach_same_label(nn, o1, l@, u, v);
                }
                assert forall|c2: int, u: int|
                    0 <= c2 < cells(nn) && 0 <= u < cells(nn) && ins0[c2] && #[trigger] ins2[u] implies #[trigger] region_size(
                    nn,
                    ins0,
                    o1,
                    c2,
                ) <= region_size(nn, ins0, o1, u) by {
                    lemma_region_size_by_label(nn, ins0, o1, l@, c2, cells(nn));
                    lemma_region_size_by_label(nn, ins0, o1, l@, u, cells(nn));
                    assert(sizes@[l@[c2] as int] <= best_size);
                }
                assert forall|c2: int, u: int|
                    0 <= c2 < cells(nn) && 0 <= u < cells(nn) && ins0[c2] && !ins2[c2] && #[trigger] ins2[u]
                        && #[trigger] region_size(nn, ins0, o1, c2) == region_size(nn, ins0, o1, u) implies exists|
                    k: int,
                | 0 <= k < c2 && #[trigger] ins2[k] by {
                    lemma_region_size_by_label(nn, ins0, o1, l@, c2, cells(nn));
                    lemma_region_size_by_label(nn, ins0, o1, l@, u, cells(nn));
                    assert(ins2[seen]);
                    assert(seen < c2);
                }
            }
        }
    }
}

} // verus!
