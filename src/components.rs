//! Component labels over the cells of a lattice, a disjoint-set index in the
//! quick-find style: each cell holds the label of its set, and a label is the
//! index of one cell of the set that holds itself as label.
use crate::graph::{
    is_open_edge, is_walk, joins, lemma_reach_edge, lemma_reach_mono, lemma_reach_refl,
    lemma_reach_sym, lemma_reach_trans, opens_more, reach,
};
use crate::lattice::{
    cell_count, cells, coord_of, edge_valid, lemma_cells_bound, lemma_step, stride, stride_of,
    MAX_HALF_SIZE,
};
use vstd::prelude::*;

verus! {

/// Each label is a cell that labels itself, and each cell reaches its label
/// along open edges.
pub open spec fn labels_ok(n: int, o: Seq<bool>, l: Seq<usize>) -> bool {
    &&& l.len() == cells(n)
    &&& forall|i: int|
        0 <= i < l.len() ==> (#[trigger] l[i]) < l.len() && l[l[i] as int] == l[i] && reach(
            n,
            o,
            i,
            l[i] as int,
        )
}

/// The two ends of edge `(c, a)` carry one label.
pub open spec fn settled(n: int, l: Seq<usize>, c: int, a: int) -> bool {
    l[c] == l[c + stride(n, a)]
}

/// Every open edge joins cells of one label.
pub open spec fn all_open_settled(n: int, o: Seq<bool>, l: Seq<usize>) -> bool {
    forall|c: int, a: int| #[trigger] is_open_edge(n, o, c, a) ==> settled(n, l, c, a)
}

pub proof fn lemma_labels_mono(n: int, o: Seq<bool>, o2: Seq<bool>, l: Seq<usize>)
    requires
        labels_ok(n, o, l),
        opens_more(o, o2),
    ensures
        labels_ok(n, o2, l),
{
    assert forall|i: int| 0 <= i < l.len() implies (#[trigger] l[i]) < l.len() && l[l[i] as int]
        == l[i] && reach(n, o2, i, l[i] as int) by {
        lemma_reach_mono(n, o, o2, i, l[i] as int);
    }
}

/// Cells of one label reach each other.
pub proof fn lemma_same_label_reach(n: int, o: Seq<bool>, l: Seq<usize>, u: int, v: int)
    requires
        labels_ok(n, o, l),
        0 <= u < l.len(),
        0 <= v < l.len(),
        l[u] == l[v],
    ensures
        reach(n, o, u, v),
{
    assert(reach(n, o, u, l[u] as int));
    assert(reach(n, o, v, l[v] as int));
    lemma_reach_sym(n, o, v, l[v] as int);
    lemma_reach_trans(n, o, u, l[u] as int, v);
}

/// Once every open edge is settled, cells that reach each other share a label.
pub proof fn lemma_reach_same_label(n: int, o: Seq<bool>, l: Seq<usize>, u: int, v: int)
    requires
        1 <= n,
        labels_ok(n, o, l),
        all_open_settled(n, o, l),
        0 <= u < l.len(),
        reach(n, o, u, v),
    ensures
        0 <= v < l.len(),
        l[u] == l[v],
{
    let (p, e) = choose|p: Seq<int>, e: Seq<(int, int)>|
        #[trigger] is_walk(n, o, p, e) && p[0] == u && p[p.len() - 1] == v;
    lemma_walk_same_label(n, o, l, p, e, e.len() as int);
}

/// Along a walk of open edges, all of them settled, every cell carries the label
/// of the first.
pub proof fn lemma_walk_same_label(
    n: int,
    o: Seq<bool>,
    l: Seq<usize>,
    p: Seq<int>,
    e: Seq<(int, int)>,
    i: int,
)
    requires
        1 <= n,
        labels_ok(n, o, l),
        all_open_settled(n, o, l),
        is_walk(n, o, p, e),
        0 <= p[0] < l.len(),
        0 <= i <= e.len(),
    ensures
        0 <= p[i] < l.len(),
        l[p[i]] == l[p[0]],
    decreases i,
{
    if i > 0 {
        lemma_walk_same_label(n, o, l, p, e, i - 1);
        let k = i - 1;
        assert(joins(n, o, e[k].0, e[k].1, p[k], p[k + 1]));
        assert(is_open_edge(n, o, e[k].0, e[k].1));
        assert(settled(n, l, e[k].0, e[k].1));
        lemma_step(n, e[k].0, e[k].1);
    }
}

/// Number of cells below `k` that are their own label.
pub open spec fn count_roots(l: Seq<usize>, k: int) -> nat
    decreases k,
{
    if k <= 0 {
        0
    } else {
        count_roots(l, k - 1) + if l[k - 1] == k - 1 {
            1nat
        } else {
            0nat
        }
    }
}

/// Moving the set of root `from` under root `to` removes one root.
proof fn lemma_roots_relabel(l0: Seq<usize>, l1: Seq<usize>, from: int, to: int, k: int)
    requires
        l0.len() == l1.len(),
        0 <= k <= l0.len(),
        0 <= from < l0.len(),
        0 <= to < l0.len(),
        from != to,
        l0[from] == from,
        l0[to] == to,
        forall|i: int| 0 <= i < l0.len() ==> #[trigger] l1[i] == if l0[i] == from {
            to as usize
        } else {
            l0[i]
        },
    ensures
        count_roots(l1, k) + (if from < k {
            1nat
        } else {
            0nat
        }) == count_roots(l0, k),
    decreases k,
{
    if k > 0 {
        lemma_roots_relabel(l0, l1, from, to, k - 1);
        let i = k - 1;
        assert(l1[i] == i <==> (l0[i] == i && i != from));
    }
}

/// When every cell carries label `r`, only `r` is a root.
pub proof fn lemma_roots_single(l: Seq<usize>, r: int, k: int)
    requires
        0 <= k <= l.len(),
        forall|i: int| 0 <= i < l.len() ==> #[trigger] l[i] == r,
    ensures
        count_roots(l, k) == if 0 <= r < k {
            1nat
        } else {
            0nat
        },
    decreases k,
{
    if k > 0 {
        lemma_roots_single(l, r, k - 1);
    }
}

/// Labels in which every cell is its own set.
pub fn fresh_labels(n: usize) -> (l: Vec<usize>)
    requires
        1 <= n <= 2 * MAX_HALF_SIZE + 1,
    ensures
        l@.len() == cells(n as int),
        forall|i: int| 0 <= i < l@.len() ==> #[trigger] l@[i] == i,
{
    let count = cell_count(n);
    let mut l: Vec<usize> = Vec::new();
    let mut i: usize = 0;
    while i < count
        invariant
            i <= count,
            l@.len() == i,
            forall|j: int| 0 <= j < i ==> #[trigger] l@[j] == j,
        decreases count - i,
    {
        l.push(i);
        i = i + 1;
    }
    l
}

pub proof fn lemma_fresh_labels_ok(n: int, o: Seq<bool>, l: Seq<usize>)
    requires
        l.len() == cells(n),
        forall|i: int| 0 <= i < l.len() ==> #[trigger] l[i] == i,
    ensures
        labels_ok(n, o, l),
{
    assert forall|i: int| 0 <= i < l.len() implies (#[trigger] l[i]) < l.len() && l[l[i] as int]
        == l[i] && reach(n, o, i, l[i] as int) by {
        lemma_reach_refl(n, o, i);
    }
}

/// Moves every cell labelled `from` to label `to`.
fn relabel(l: &mut Vec<usize>, from: usize, to: usize)
    ensures
        final(l)@.len() == old(l)@.len(),
        forall|i: int|
            0 <= i < old(l)@.len() ==> #[trigger] final(l)@[i] == if old(l)@[i] == from {
                to
            } else {
                old(l)@[i]
            },
{
    let mut i: usize = 0;
    while i < l.len()
        invariant
            i <= l@.len(),
            l@.len() == old(l)@.len(),
            forall|j: int|
                0 <= j < i ==> #[trigger] l@[j] == if old(l)@[j] == from {
                    to
                } else {
                    old(l)@[j]
                },
            forall|j: int| i <= j < l@.len() ==> #[trigger] l@[j] == old(l)@[j],
        decreases l@.len() - i,
    {
        if l[i] == from {
            l.set(i, to);
        }
        i = i + 1;
    }
}

/// Joins the sets of the two ends of the open edge `(c, a)`; returns whether
/// they were apart.
pub fn join_labels(n: usize, o: &Vec<bool>, l: &mut Vec<usize>, c: usize, a: usize) -> (merged:
    bool)
    requires
        1 <= n <= 2 * MAX_HALF_SIZE + 1,
        labels_ok(n as int, o@, old(l)@),
        is_open_edge(n as int, o@, c as int, a as int),
    ensures
        labels_ok(n as int, o@, final(l)@),
        settled(n as int, final(l)@, c as int, a as int),
        merged == !settled(n as int, old(l)@, c as int, a as int),
        forall|i: int, j: int|
            0 <= i < old(l)@.len() && 0 <= j < old(l)@.len() && old(l)@[i] == old(l)@[j]
                ==> #[trigger] final(l)@[i] == #[trigger] final(l)@[j],
        !merged ==> final(l)@ == old(l)@,
        merged ==> count_roots(final(l)@, final(l)@.len() as int) + 1 == count_roots(
            old(l)@,
            old(l)@.len() as int,
        ),
{
    proof {
        lemma_step(n as int, c as int, a as int);
        lemma_cells_bound(n as int);
    }
    let s = stride_of(n, a);
    let d = c + s;
    let la = l[c];
    let lb = l[d];
    if la == lb {
        return false;
    }
    let ghost l0 = l@;
    relabel(l, lb, la);
    proof {
        let nn = n as int;
        assert(joins(nn, o@, c as int, a as int, d as int, c as int));
        lemma_reach_edge(nn, o@, c as int, a as int, d as int, c as int);
        assert(reach(nn, o@, c as int, la as int));
        assert(reach(nn, o@, d as int, lb as int));
        lemma_reach_sym(nn, o@, d as int, lb as int);
        lemma_reach_trans(nn, o@, lb as int, d as int, c as int);
        lemma_reach_trans(nn, o@, lb as int, c as int, la as int);
        assert(l0[la as int] == la);
        assert(l0[lb as int] == lb);
        lemma_roots_relabel(l0, l@, lb as int, la as int, l0.len() as int);
        assert forall|i: int| 0 <= i < l@.len() implies (#[trigger] l@[i]) < l@.len() && l@[l@[i]
            as int] == l@[i] && reach(nn, o@, i, l@[i] as int) by {
            assert(l0[i] < l0.len() && l0[l0[i] as int] == l0[i] && reach(nn, o@, i, l0[i] as int));
            if l0[i] == lb {
                lemma_reach_trans(nn, o@, i, lb as int, la as int);
            }
        }
    }
    true
}

/// Labels the connected components of the open-edge graph `o`.
pub fn label_components(n: usize, o: &Vec<bool>) -> (l: Vec<usize>)
    requires
        1 <= n <= 2 * MAX_HALF_SIZE + 1,
        o@.len() == 3 * cells(n as int),
    ensures
        labels_ok(n as int, o@, l@),
        all_open_settled(n as int, o@, l@),
{
    let count = cell_count(n);
    let mut l = fresh_labels(n);
    proof {
        lemma_fresh_labels_ok(n as int, o@, l@);
        lemma_cells_bound(n as int);
    }
    let mut c: usize = 0;
    while c < count
        invariant
            1 <= n <= 2 * MAX_HALF_SIZE + 1,
            count == cells(n as int),
            3 * count <= usize::MAX,
            o@.len() == 3 * count,
            c <= count,
            labels_ok(n as int, o@, l@),
            forall|c2: int, a2: int|
                0 <= c2 < c && #[trigger] is_open_edge(n as int, o@, c2, a2) ==> settled(
                    n as int,
                    l@,
                    c2,
                    a2,
                ),
        decreases count - c,
    {
        let mut a: usize = 0;
        while a < 3
            invariant
                1 <= n <= 2 * MAX_HALF_SIZE + 1,
                count == cells(n as int),
                3 * count <= usize::MAX,
                o@.len() == 3 * count,
                c < count,
                a <= 3,
                labels_ok(n as int, o@, l@),
                forall|c2: int, a2: int|
                    (0 <= c2 < c || (c2 == c && 0 <= a2 < a)) && #[trigger] is_open_edge(
                        n as int,
                        o@,
                        c2,
                        a2,
                    ) ==> settled(n as int, l@, c2, a2),
            decreases 3 - a,
        {
            if coord_of(n, c, a) + 1 < n && o[3 * c + a] {
                let ghost l0 = l@;
                join_labels(n, o, &mut l, c, a);
                proof {
                    assert forall|c2: int, a2: int|
                        (0 <= c2 < c || (c2 == c && 0 <= a2 <= a)) && #[trigger] is_open_edge(
                            n as int,
                            o@,
                            c2,
                            a2,
                        ) implies settled(n as int, l@, c2, a2) by {
                        if c2 != c || a2 != a {
                            assert(settled(n as int, l0, c2, a2));
                            lemma_step(n as int, c2, a2);
                        }
                    }
                }
            }
            a = a + 1;
        }
        c = c + 1;
    }
    proof {
        assert forall|c2: int, a2: int| #[trigger] is_open_edge(n as int, o@, c2, a2) implies settled(
            n as int,
            l@,
            c2,
            a2,
        ) by {
            assert(edge_valid(n as int, c2, a2));
        }
    }
    l
}

} // verus!
