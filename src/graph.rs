//! The open-edge graph of a lattice: walks along open edges and reachability.
//!
//! `o` is a per-edge table of open flags, indexed by `edge_index(c, a)`.
use crate::lattice::{cells, edge_index, edge_valid, stride};
use vstd::prelude::*;

verus! {

/// Edge `(c, a)` exists and is open.
pub open spec fn is_open_edge(n: int, o: Seq<bool>, c: int, a: int) -> bool {
    edge_valid(n, c, a) && 0 <= edge_index(c, a) < o.len() && o[edge_index(c, a)]
}

/// The open edge `(c, a)` joins `u` and `v`, in either direction.
pub open spec fn joins(n: int, o: Seq<bool>, c: int, a: int, u: int, v: int) -> bool {
    is_open_edge(n, o, c, a) && ((u == c && v == c + stride(n, a)) || (v == c && u == c
        + stride(n, a)))
}

/// `p` is a walk of cells and `e[i]` the open edge taken from `p[i]` to `p[i + 1]`.
pub open spec fn is_walk(n: int, o: Seq<bool>, p: Seq<int>, e: Seq<(int, int)>) -> bool {
    &&& p.len() == e.len() + 1
    &&& forall|i: int| 0 <= i < e.len() ==> #[trigger] joins(n, o, e[i].0, e[i].1, p[i], p[i + 1])
}

/// Some walk along open edges leads from `u` to `v`.
pub open spec fn reach(n: int, o: Seq<bool>, u: int, v: int) -> bool {
    exists|p: Seq<int>, e: Seq<(int, int)>|
        #[trigger] is_walk(n, o, p, e) && p[0] == u && p[p.len() - 1] == v
}

/// The open-edge graph over all cells is connected.
pub open spec fn connected(n: int, o: Seq<bool>) -> bool {
    forall|u: int, v: int| 0 <= u < cells(n) && 0 <= v < cells(n) ==> #[trigger] reach(n, o, u, v)
}

/// Every open edge of `o` is open in `o2`.
pub open spec fn opens_more(o: Seq<bool>, o2: Seq<bool>) -> bool {
    o.len() == o2.len() && forall|i: int| 0 <= i < o.len() && #[trigger] o[i] ==> o2[i]
}

pub proof fn lemma_reach_refl(n: int, o: Seq<bool>, u: int)
    ensures
        reach(n, o, u, u),
{
    let p = seq![u];
    let e = Seq::<(int, int)>::empty();
    assert(is_walk(n, o, p, e));
}

pub proof fn lemma_reach_edge(n: int, o: Seq<bool>, c: int, a: int, u: int, v: int)
    requires
        joins(n, o, c, a, u, v),
    ensures
        reach(n, o, u, v),
{
    let p = seq![u, v];
    let e = seq![(c, a)];
    assert(joins(n, o, e[0].0, e[0].1, p[0], p[1]));
    assert(is_walk(n, o, p, e));
}

pub proof fn lemma_reach_trans(n: int, o: Seq<bool>, u: int, v: int, w: int)
    requires
        reach(n, o, u, v),
        reach(n, o, v, w),
    ensures
        reach(n, o, u, w),
{
    let (pa, ea) = choose|p: Seq<int>, e: Seq<(int, int)>|
        #[trigger] is_walk(n, o, p, e) && p[0] == u && p[p.len() - 1] == v;
    let (pb, eb) = choose|p: Seq<int>, e: Seq<(int, int)>|
        #[trigger] is_walk(n, o, p, e) && p[0] == v && p[p.len() - 1] == w;
    let p = pa + pb.subrange(1, pb.len() as int);
    let e = ea + eb;
    assert forall|i: int| 0 <= i < e.len() implies #[trigger] joins(
        n,
        o,
        e[i].0,
        e[i].1,
        p[i],
        p[i + 1],
    ) by {
        if i < ea.len() {
            assert(joins(n, o, ea[i].0, ea[i].1, pa[i], pa[i + 1]));
        } else {
            let j = i - ea.len();
            assert(joins(n, o, eb[j].0, eb[j].1, pb[j], pb[j + 1]));
        }
    }
    assert(is_walk(n, o, p, e));
}

pub proof fn lemma_reach_sym(n: int, o: Seq<bool>, u: int, v: int)
    requires
        reach(n, o, u, v),
    ensures
        reach(n, o, v, u),
{
    let (p, e) = choose|p: Seq<int>, e: Seq<(int, int)>|
        #[trigger] is_walk(n, o, p, e) && p[0] == u && p[p.len() - 1] == v;
    let rp = Seq::new(p.len(), |i: int| p[p.len() - 1 - i]);
    let re = Seq::new(e.len(), |i: int| e[e.len() - 1 - i]);
    assert forall|i: int| 0 <= i < re.len() implies #[trigger] joins(
        n,
        o,
        re[i].0,
        re[i].1,
        rp[i],
        rp[i + 1],
    ) by {
        let j = e.len() - 1 - i;
        assert(joins(n, o, e[j].0, e[j].1, p[j], p[j + 1]));
    }
    assert(is_walk(n, o, rp, re));
}

/// Opening more edges keeps every walk.
pub proof fn lemma_reach_mono(n: int, o: Seq<bool>, o2: Seq<bool>, u: int, v: int)
    requires
        reach(n, o, u, v),
        opens_more(o, o2),
    ensures
        reach(n, o2, u, v),
{
    let (p, e) = choose|p: Seq<int>, e: Seq<(int, int)>|
        #[trigger] is_walk(n, o, p, e) && p[0] == u && p[p.len() - 1] == v;
    assert forall|i: int| 0 <= i < e.len() implies #[trigger] joins(
        n,
        o2,
        e[i].0,
        e[i].1,
        p[i],
        p[i + 1],
    ) by {
        assert(joins(n, o, e[i].0, e[i].1, p[i], p[i + 1]));
    }
    assert(is_walk(n, o2, p, e));
}


pub proof fn lemma_connected_mono(n: int, o: Seq<bool>, o2: Seq<bool>)
    requires
        connected(n, o),
        opens_more(o, o2),
    ensures
        connected(n, o2),
{
    assert forall|u: int, v: int| 0 <= u < cells(n) && 0 <= v < cells(n) implies #[trigger] reach(
        n,
        o2,
        u,
        v,
    ) by {
        lemma_reach_mono(n, o, o2, u, v);
    }
}

} // verus!
