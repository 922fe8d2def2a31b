//! Randomised spanning construction in the style of Kruskal, followed by a pass
//! that opens extra edges to make loops.
use crate::components::{
    all_open_settled, count_roots, fresh_labels, join_labels, labels_ok, lemma_fresh_labels_ok,
    lemma_labels_mono, lemma_reach_same_label, lemma_roots_single, lemma_same_label_reach,
    settled,
};
use crate::draw::{draw_below, draw_key, lex_le, lex_sorted, sort_keyed};
use crate::graph::{connected, is_open_edge, lemma_connected_mono, opens_more, reach};
use crate::lattice::{
    cell_count, cells, coord_of, edge_index, edge_valid, lemma_cells_bound, lemma_has_back_edge,
    lemma_step, stride, stride_of, MAX_HALF_SIZE,
};
use crate::maze::{
    count_open, ind, lemma_count_open_sub, lemma_count_open_update, open_only_valid, Maze,
};
use vstd::prelude::*;
use vstd::relations::{
    antisymmetric, reflexive, sorted_by, strongly_connected, total_ordering, transitive,
};
use vstd::seq_lib::lemma_sorted_unique;

verus! {

/// Loop chances are given in millionths: rolls are drawn below this bound, and
/// a chance of `CHANCE_SCALE` opens every edge.
pub const CHANCE_SCALE: u32 = 1000000;

/// Every existing edge of the lattice appears in `order`.
pub open spec fn covers_all_edges(n: int, order: Seq<(u64, usize, usize)>) -> bool {
    forall|c: int, a: int|
        #[trigger] edge_valid(n, c, a) ==> exists|k: int|
            0 <= k < order.len() && (#[trigger] order[k]).1 == c && order[k].2 == a
}

/// The sort key of edge `(c, a)`: twice its drawn key, plus one where the
/// jitter flag of its axis is set.
pub open spec fn edge_key(key: u32, jitter: bool) -> u64 {
    (2 * key + ind(jitter)) as u64
}

/// The open flags once the spanning pass has handled the first `k` entries of
/// `order`: an entry's edge is opened when it exists and its two ends are not
/// yet connected.
pub open spec fn spanned(n: int, order: Seq<(u64, usize, usize)>, k: int) -> Seq<bool>
    decreases k,
{
    if k <= 0 {
        Seq::new((3 * cells(n)) as nat, |i: int| false)
    } else {
        let prev = spanned(n, order, k - 1);
        let c = order[k - 1].1 as int;
        let a = order[k - 1].2 as int;
        if edge_valid(n, c, a) && !reach(n, prev, c, c + stride(n, a)) {
            prev.update(edge_index(c, a), true)
        } else {
            prev
        }
    }
}

/// One entry `(key, c, a)` per edge slot `(c, a)`, in slot order.
pub open spec fn keyed(n: int, bug: [bool; 3], keys: Seq<u32>) -> Seq<(u64, usize, usize)> {
    Seq::new(
        (3 * cells(n)) as nat,
        |i: int| (edge_key(keys[i], bug@[i % 3]), (i / 3) as usize, (i % 3) as usize),
    )
}

/// One entry `(key, c, a)` per edge slot `(c, a)`, in slot order.
fn keyed_edges(n: usize, bug: [bool; 3], keys: &Vec<u32>) -> (v: Vec<(u64, usize, usize)>)
    requires
        1 <= n <= 2 * MAX_HALF_SIZE + 1,
        keys@.len() == 3 * cells(n as int),
    ensures
        v@.len() == 3 * cells(n as int),
        forall|c: int, a: int|
            0 <= c < cells(n as int) && 0 <= a < 3 ==> #[trigger] v@[edge_index(c, a)] == (
            edge_key(keys@[edge_index(c, a)], bug@[a]),
            c as usize,
            a as usize,
        ),
        v@ == keyed(n as int, bug, keys@),
{
    proof {
        lemma_cells_bound(n as int);
    }
    let count = cell_count(n);
    let mut v: Vec<(u64, usize, usize)> = Vec::new();
    let mut c: usize = 0;
    while c < count
        invariant
            count == cells(n as int),
            3 * count <= usize::MAX,
            keys@.len() == 3 * count,
            c <= count,
            v@.len() == 3 * c,
            forall|c2: int, a2: int|
                0 <= c2 < c && 0 <= a2 < 3 ==> #[trigger] v@[edge_index(c2, a2)] == (
                edge_key(keys@[edge_index(c2, a2)], bug@[a2]),
                c2 as usize,
                a2 as usize,
            ),
        decreases count - c,
    {
        let mut a: usize = 0;
        while a < 3
            invariant
                count == cells(n as int),
                3 * count <= usize::MAX,
                keys@.len() == 3 * count,
                c < count,
                a <= 3,
                v@.len() == 3 * c + a,
                forall|c2: int, a2: int|
                    (0 <= c2 < c && 0 <= a2 < 3) || (c2 == c && 0 <= a2 < a)
                        ==> #[trigger] v@[edge_index(c2, a2)] == (
                    edge_key(keys@[edge_index(c2, a2)], bug@[a2]),
                    c2 as usize,
                    a2 as usize,
                ),
            decreases 3 - a,
        {
            let k: u64 = 2 * (keys[3 * c + a] as u64) + if bug[a] {
                1u64
            } else {
                0u64
            };
            v.push((k, c, a));
            a = a + 1;
        }
        c = c + 1;
    }
    proof {
        let w = keyed(n as int, bug, keys@);
        assert forall|i: int| 0 <= i < v@.len() implies v@[i] == w[i] by {
            let c2 = i / 3;
            let a2 = i % 3;
            assert(i == edge_index(c2, a2));
            assert(v@[edge_index(c2, a2)] == (
                edge_key(keys@[edge_index(c2, a2)], bug@[a2]),
                c2 as usize,
                a2 as usize,
            ));
        }
        assert(v@ =~= w);
    }
    v
}

/// All cells carry the label of cell 0 once every lattice edge is settled.
proof fn lemma_one_label(n: int, l: Seq<usize>, c: int)
    requires
        1 <= n,
        l.len() == cells(n),
        forall|c2: int, a2: int| #[trigger] edge_valid(n, c2, a2) ==> settled(n, l, c2, a2),
        0 <= c < cells(n),
    ensures
        l[c] == l[0],
    decreases c,
{
    if c > 0 {
        let a = lemma_has_back_edge(n, c);
        let b = c - stride(n, a);
        assert(edge_valid(n, b, a));
        assert(settled(n, l, b, a));
        lemma_one_label(n, l, b);
    }
}

/// A table with no open flag counts none.
proof fn lemma_count_open_none(o: Seq<bool>)
    requires
        forall|j: int| 0 <= j < o.len() ==> !(#[trigger] o[j]),
    ensures
        count_open(o) == 0,
    decreases o.len(),
{
    if o.len() > 0 {
        lemma_count_open_none(o.drop_last());
    }
}

/// In fresh labels every cell is a root.
proof fn lemma_roots_fresh(l: Seq<usize>, k: int)
    requires
        0 <= k <= l.len(),
        forall|i: int| 0 <= i < l.len() ==> #[trigger] l[i] == i,
    ensures
        count_roots(l, k) == k,
    decreases k,
{
    if k > 0 {
        lemma_roots_fresh(l, k - 1);
    }
}

/// Opens, in the order given, each edge whose ends are not yet connected.
/// When `order` covers every lattice edge, the open edges connect all cells.
fn span(n: usize, order: &Vec<(u64, usize, usize)>) -> (o: Vec<bool>)
    requires
        1 <= n <= 2 * MAX_HALF_SIZE + 1,
        covers_all_edges(n as int, order@),
    ensures
        o@.len() == 3 * cells(n as int),
        open_only_valid(n as int, o@),
        connected(n as int, o@),
        count_open(o@) + 1 == cells(n as int),
        o@ == spanned(n as int, order@, order@.len() as int),
{
    proof {
        lemma_cells_bound(n as int);
    }
    let count = cell_count(n);
    let mut o: Vec<bool> = Vec::new();
    let mut i: usize = 0;
    while i < 3 * count
        invariant
            3 * count <= usize::MAX,
            o@.len() == i,
            i <= 3 * count,
            forall|j: int| 0 <= j < i ==> !(#[trigger] o@[j]),
        decreases 3 * count - i,
    {
        o.push(false);
        i = i + 1;
    }
    let mut l = fresh_labels(n);
    proof {
        assert(o@ =~= spanned(n as int, order@, 0));
        lemma_fresh_labels_ok(n as int, o@, l@);
        lemma_count_open_none(o@);
        lemma_roots_fresh(l@, count as int);
    }
    let mut k: usize = 0;
    while k < order.len()
        invariant
            1 <= n <= 2 * MAX_HALF_SIZE + 1,
            count == cells(n as int),
            3 * count <= usize::MAX,
            o@.len() == 3 * count,
            open_only_valid(n as int, o@),
            labels_ok(n as int, o@, l@),
            all_open_settled(n as int, o@, l@),
            count_open(o@) + count_roots(l@, count as int) == count,
            o@ == spanned(n as int, order@, k as int),
            k <= order@.len(),
            forall|k2: int|
                0 <= k2 < k && edge_valid(n as int, (#[trigger] order@[k2]).1 as int, order@[k2].2 as int)
                    ==> settled(n as int, l@, order@[k2].1 as int, order@[k2].2 as int),
        decreases order@.len() - k,
    {
        let (_, c, a) = order[k];
        if c < count && a < 3 && coord_of(n, c, a) + 1 < n {
            proof {
                lemma_step(n as int, c as int, a as int);
            }
            let d = c + stride_of(n, a);
            proof {
                if reach(n as int, o@, c as int, d as int) {
                    lemma_reach_same_label(n as int, o@, l@, c as int, d as int);
                }
                if l@[c as int] == l@[d as int] {
                    lemma_same_label_reach(n as int, o@, l@, c as int, d as int);
                }
            }
            if l[c] != l[d] {
                let ghost o0 = o@;
                let ghost l0 = l@;
                proof {
                    if o0[3 * c + a] {
                        assert(is_open_edge(n as int, o0, c as int, a as int));
                    }
                    lemma_count_open_update(o0, 3 * c + a);
                }
                o.set(3 * c + a, true);
                proof {
                    assert(opens_more(o0, o@));
                    lemma_labels_mono(n as int, o0, o@, l@);
                    assert(is_open_edge(n as int, o@, c as int, a as int));
                }
                join_labels(n, &o, &mut l, c, a);
                proof {
                    assert forall|k2: int|
                        0 <= k2 < k && edge_valid(
                            n as int,
                            (#[trigger] order@[k2]).1 as int,
                            order@[k2].2 as int,
                        ) implies settled(n as int, l@, order@[k2].1 as int, order@[k2].2 as int) by {
                        assert(settled(n as int, l0, order@[k2].1 as int, order@[k2].2 as int));
                        lemma_step(n as int, order@[k2].1 as int, order@[k2].2 as int);
                    }
                    assert forall|c2: int, a2: int| #[trigger] is_open_edge(n as int, o@, c2, a2) implies settled(
                        n as int,
                        l@,
                        c2,
                        a2,
                    ) by {
                        lemma_step(n as int, c2, a2);
                        if c2 != c || a2 != a {
                            assert(is_open_edge(n as int, o0, c2, a2));
                            assert(settled(n as int, l0, c2, a2));
                        }
                    }
                }
            }
        }
        k = k + 1;
    }
    proof {
        let nn = n as int;
        assert forall|c2: int, a2: int| #[trigger] edge_valid(nn, c2, a2) implies settled(
            nn,
            l@,
            c2,
            a2,
        ) by {
            let k2 = choose|k2: int|
                0 <= k2 < order@.len() && (#[trigger] order@[k2]).1 == c2 && order@[k2].2 == a2;
            assert(edge_valid(nn, order@[k2].1 as int, order@[k2].2 as int));
        }
        assert forall|u: int, v: int| 0 <= u < cells(nn) && 0 <= v < cells(nn) implies #[trigger] reach(
            nn,
            o@,
            u,
            v,
        ) by {
            lemma_one_label(nn, l@, u);
            lemma_one_label(nn, l@, v);
            lemma_same_label_reach(nn, o@, l@, u, v);
        }
        assert forall|i: int| 0 <= i < l@.len() implies #[trigger] l@[i] == l@[0] by {
            lemma_one_label(nn, l@, i);
        }
        lemma_roots_single(l@, l@[0] as int, count as int);
    }
    o
}

/// Opens each closed lattice edge whose roll is below `percent`.
fn add_loops(n: usize, o: &mut Vec<bool>, rolls: &Vec<u32>, percent: u32)
    requires
        1 <= n <= 2 * MAX_HALF_SIZE + 1,
        old(o)@.len() == 3 * cells(n as int),
        rolls@.len() == 3 * cells(n as int),
        open_only_valid(n as int, old(o)@),
    ensures
        final(o)@.len() == old(o)@.len(),
        open_only_valid(n as int, final(o)@),
        opens_more(old(o)@, final(o)@),
        percent == 0 ==> final(o)@ == old(o)@,
        forall|c: int, a: int|
            0 <= c < cells(n as int) && 0 <= a < 3 ==> #[trigger] final(o)@[edge_index(c, a)] == (
            old(o)@[edge_index(c, a)] || (edge_valid(n as int, c, a) && rolls@[edge_index(c, a)]
                < percent)),
{
    proof {
        lemma_cells_bound(n as int);
    }
    let count = cell_count(n);
    let mut c: usize = 0;
    while c < count
        invariant
            1 <= n <= 2 * MAX_HALF_SIZE + 1,
            count == cells(n as int),
            3 * count <= usize::MAX,
            o@.len() == 3 * count,
            rolls@.len() == 3 * count,
            c <= count,
            open_only_valid(n as int, o@),
            opens_more(old(o)@, o@),
            percent == 0 ==> o@ == old(o)@,
            forall|c2: int, a2: int|
                0 <= c2 < c && 0 <= a2 < 3 ==> #[trigger] o@[edge_index(c2, a2)] == (
                old(o)@[edge_index(c2, a2)] || (edge_valid(n as int, c2, a2)
                    && rolls@[edge_index(c2, a2)] < percent)),
            forall|j: int| 3 * c <= j < o@.len() ==> #[trigger] o@[j] == old(o)@[j],
        decreases count - c,
    {
        let mut a: usize = 0;
        while a < 3
            invariant
                1 <= n <= 2 * MAX_HALF_SIZE + 1,
                count == cells(n as int),
                3 * count <= usize::MAX,
                o@.len() == 3 * count,
                rolls@.len() == 3 * count,
                c < count,
                a <= 3,
                open_only_valid(n as int, o@),
                opens_more(old(o)@, o@),
                percent == 0 ==> o@ == old(o)@,
                forall|c2: int, a2: int|
                    (0 <= c2 < c && 0 <= a2 < 3) || (c2 == c && 0 <= a2 < a)
                        ==> #[trigger] o@[edge_index(c2, a2)] == (old(o)@[edge_index(c2, a2)] || (
                    edge_valid(n as int, c2, a2) && rolls@[edge_index(c2, a2)] < percent)),
                forall|j: int| 3 * c + a <= j < o@.len() ==> #[trigger] o@[j] == old(o)@[j],
            decreases 3 - a,
        {
            if coord_of(n, c, a) + 1 < n && rolls[3 * c + a] < percent {
                o.set(3 * c + a, true);
            }
            a = a + 1;
        }
        c = c + 1;
    }
}

/// `m` is the maze that `from_draws` builds from these arguments.
pub open spec fn drawn(
    m: Maze,
    half_size: usize,
    percent: u32,
    bug: [bool; 3],
    keys: Seq<u32>,
    rolls: Seq<u32>,
) -> bool {
    &&& m.wf()
    &&& m.half_size == half_size
    &&& forall|c: int| 0 <= c < cells(m.n()) ==> #[trigger] m.inside@[c]
    &&& connected(m.n(), m.open@)
    &&& count_open(m.open@) + 1 >= cells(m.n())
    &&& percent == 0 ==> count_open(m.open@) + 1 == cells(m.n())
    &&& exists|order: Seq<(u64, usize, usize)>|
        {
            &&& order.to_multiset() == keyed(m.n(), bug, keys).to_multiset()
            &&& lex_sorted(order)
            &&& forall|c: int, a: int|
                0 <= c < cells(m.n()) && 0 <= a < 3 ==> #[trigger] m.open@[edge_index(c, a)] == (
                spanned(m.n(), order, order.len() as int)[edge_index(c, a)] || (edge_valid(
                    m.n(),
                    c,
                    a,
                ) && rolls[edge_index(c, a)] < percent))
        }
}

/// The maze that `from_draws` builds is fixed by its arguments: two mazes
/// built from the same half-size, chance, jitter flags, keys and rolls have
/// the same open and inside flags.
pub proof fn lemma_drawn_determined(
    m1: Maze,
    m2: Maze,
    half_size: usize,
    percent: u32,
    bug: [bool; 3],
    keys: Seq<u32>,
    rolls: Seq<u32>,
)
    requires
        drawn(m1, half_size, percent, bug, keys, rolls),
        drawn(m2, half_size, percent, bug, keys, rolls),
    ensures
        m1.open@ == m2.open@,
        m1.inside@ == m2.inside@,
{
    let n = m1.n();
    let leq = |x: (u64, usize, usize), y: (u64, usize, usize)| lex_le(x, y);
    let o1 = choose|order: Seq<(u64, usize, usize)>|
        {
            &&& order.to_multiset() == keyed(n, bug, keys).to_multiset()
            &&& lex_sorted(order)
            &&& forall|c: int, a: int|
                0 <= c < cells(n) && 0 <= a < 3 ==> #[trigger] m1.open@[edge_index(c, a)] == (
                spanned(n, order, order.len() as int)[edge_index(c, a)] || (edge_valid(n, c, a)
                    && rolls[edge_index(c, a)] < percent))
        };
    let o2 = choose|order: Seq<(u64, usize, usize)>|
        {
            &&& order.to_multiset() == keyed(n, bug, keys).to_multiset()
            &&& lex_sorted(order)
            &&& forall|c: int, a: int|
                0 <= c < cells(n) && 0 <= a < 3 ==> #[trigger] m2.open@[edge_index(c, a)] == (
                spanned(n, order, order.len() as int)[edge_index(c, a)] || (edge_valid(n, c, a)
                    && rolls[edge_index(c, a)] < percent))
        };
    assert(total_ordering(leq)) by {
        assert(reflexive(leq));
        assert(antisymmetric(leq));
        assert(transitive(leq));
        assert(strongly_connected(leq));
    }
    assert(sorted_by(o1, leq)) by {
        assert forall|i: int, j: int| 0 <= i < j < o1.len() implies #[trigger] leq(o1[i], o1[j]) by {
            assert(lex_le(o1[i], o1[j]));
        }
    }
    assert(sorted_by(o2, leq)) by {
        assert forall|i: int, j: int| 0 <= i < j < o2.len() implies #[trigger] leq(o2[i], o2[j]) by {
            assert(lex_le(o2[i], o2[j]));
        }
    }
    lemma_sorted_unique(o1, o2, leq);
    assert(o1 == o2);
    assert forall|i: int| 0 <= i < m1.open@.len() implies m1.open@[i] == m2.open@[i] by {
        let c = i / 3;
        let a = i % 3;
        assert(i == edge_index(c, a));
        assert(m1.open@[edge_index(c, a)] == m2.open@[edge_index(c, a)]);
    }
    assert(m1.open@ =~= m2.open@);
    assert forall|c: int| 0 <= c < m1.inside@.len() implies m1.inside@[c] == m2.inside@[c] by {
        assert(m1.inside@[c] && m2.inside@[c]);
    }
    assert(m1.inside@ =~= m2.inside@);
}

impl Maze {
    /// Builds a maze from drawn values. The spanning pass takes the edges by
    /// increasing sort key, `2 * keys[3 * c + a]` plus one where the jitter
    /// flag of axis `a` is set, and opens each edge whose ends are not yet
    /// connected; this leaves a spanning tree of `cells - 1` edges. Then each
    /// edge `(c, a)` with `rolls[3 * c + a] < percent` is opened as well.
    /// Every cell is inside, and the open edges connect all cells.
    pub fn from_draws(
        half_size: usize,
        percent: u32,
        bug: [bool; 3],
        keys: &Vec<u32>,
        rolls: &Vec<u32>,
    ) -> (m: Maze)
        requires
            half_size <= MAX_HALF_SIZE,
            keys@.len() == 3 * cells(2 * half_size + 1),
            rolls@.len() == 3 * cells(2 * half_size + 1),
        ensures
            drawn(m, half_size, percent, bug, keys@, rolls@),
            forall|c: int, a: int|
                #[trigger] edge_valid(m.n(), c, a) && rolls@[edge_index(c, a)] < percent
                    ==> is_open_edge(m.n(), m.open@, c, a),
    {
        let n = 2 * half_size + 1;
        proof {
            lemma_cells_bound(n as int);
        }
        let count = cell_count(n);
        let mut order = keyed_edges(n, bug, keys);
        let ghost unsorted = order@;
        sort_keyed(&mut order);
        proof {
            assert forall|c: int, a: int| #[trigger] edge_valid(n as int, c, a) implies exists|k: int|
                0 <= k < order@.len() && (#[trigger] order@[k]).1 == c && order@[k].2 == a by {
                let t = unsorted[edge_index(c, a)];
                unsorted.to_multiset_ensures();
                order@.to_multiset_ensures();
                assert(unsorted[edge_index(c, a)] == t);
                assert(unsorted.contains(t));
                assert(unsorted.to_multiset().count(t) > 0);
                assert(order@.to_multiset().count(t) > 0);
                assert(order@.contains(t));
                let k = choose|k: int| 0 <= k < order@.len() && order@[k] == t;
                assert(order@[k].1 == c && order@[k].2 == a);
            }
        }
        let mut open = span(n, &order);
        let ghost sorted = order@;
        let ghost spanned = open@;
        add_loops(n, &mut open, rolls, percent);
        proof {
            lemma_connected_mono(n as int, spanned, open@);
            lemma_count_open_sub(spanned, open@);
        }
        let mut inside: Vec<bool> = Vec::new();
        let mut i: usize = 0;
        while i < count
            invariant
                inside@.len() == i,
                i <= count,
                forall|j: int| 0 <= j < i ==> #[trigger] inside@[j],
            decreases count - i,
        {
            inside.push(true);
            i = i + 1;
        }
        let m = Maze { half_size, inside, open };
        proof {
            assert(lex_sorted(sorted));
            assert(sorted.to_multiset() == keyed(m.n(), bug, keys@).to_multiset());
        }
        m
    }

    /// Builds the maze of `from_draws` from keys and rolls drawn from `rng`,
    /// each roll below `CHANCE_SCALE`, so that `percent` is the chance, in
    /// millionths, that an edge left closed by the spanning pass is opened as
    /// an extra loop.
    pub fn new_kruskal(
        half_size: usize,
        percent: u32,
        bug: [bool; 3],
        rng: &mut rand::rngs::StdRng,
    ) -> (m: Maze)
        requires
            half_size <= MAX_HALF_SIZE,
        ensures
            m.wf(),
            m.half_size == half_size,
            forall|c: int| 0 <= c < cells(m.n()) ==> #[trigger] m.inside@[c],
            connected(m.n(), m.open@),
            count_open(m.open@) + 1 >= cells(m.n()),
            percent == 0 ==> count_open(m.open@) + 1 == cells(m.n()),
            exists|keys: Seq<u32>, rolls: Seq<u32>|
                {
                    &&& keys.len() == 3 * cells(m.n())
                    &&& rolls.len() == 3 * cells(m.n())
                    &&& forall|j: int| 0 <= j < rolls.len() ==> #[trigger] rolls[j] < CHANCE_SCALE
                    &&& #[trigger] drawn(m, half_size, percent, bug, keys, rolls)
                },
            percent >= CHANCE_SCALE ==> forall|c: int, a: int|
                #[trigger] edge_valid(m.n(), c, a) ==> is_open_edge(m.n(), m.open@, c, a),
    {
        let n = 2 * half_size + 1;
        proof {
            lemma_cells_bound(n as int);
        }
        let total = 3 * cell_count(n);
        let mut keys: Vec<u32> = Vec::new();
        let mut rolls: Vec<u32> = Vec::new();
        let mut i: usize = 0;
        while i < total
            invariant
                keys@.len() == i,
                rolls@.len() == i,
                i <= total,
                forall|j: int| 0 <= j < i ==> #[trigger] rolls@[j] < CHANCE_SCALE,
            decreases total - i,
        {
            keys.push(draw_key(rng));
            rolls.push(draw_below(rng, CHANCE_SCALE));
            i = i + 1;
        }
        let m = Maze::from_draws(half_size, percent, bug, &keys, &rolls);
        proof {
            if percent >= CHANCE_SCALE {
                assert forall|c: int, a: int| #[trigger] edge_valid(m.n(), c, a) implies is_open_edge(
                    m.n(),
                    m.open@,
                    c,
                    a,
                ) by {
                    assert(0 <= edge_index(c, a) < rolls@.len());
                    assert(rolls@[edge_index(c, a)] < CHANCE_SCALE);
                }
            }
            assert(drawn(m, half_size, percent, bug, keys@, rolls@));
        }
        m
    }
}

} // verus!
