use rand::rngs::StdRng;
use rand::SeedableRng;
use maze_level::lattice::{cell_count, coord_of, stride_of};
use maze_level::level::{Level, LevelBuilder, LevelError};
use maze_level::maze::Maze;
use maze_level::walls::Wall;

fn seeded_rng(seed: u64) -> StdRng {
    StdRng::seed_from_u64(seed)
}

fn neighbours(m: &Maze, c: usize) -> Vec<usize> {
    let n = m.side();
    let mut r = Vec::new();
    for a in 0..3 {
        if m.is_open(c, a) {
            r.push(c + stride_of(n, a));
        }
        if m.is_open_from_back(c, a) {
            r.push(c - stride_of(n, a));
        }
    }
    r
}

/// Cells reached from `start` along open edges.
fn region(m: &Maze, start: usize) -> Vec<bool> {
    let mut seen = vec![false; m.cell_total()];
    let mut stack = vec![start];
    seen[start] = true;
    while let Some(c) = stack.pop() {
        for d in neighbours(m, c) {
            if !seen[d] {
                seen[d] = true;
                stack.push(d);
            }
        }
    }
    seen
}

fn all_connected(m: &Maze) -> bool {
    region(m, 0).iter().all(|&b| b)
}

fn inside_count(m: &Maze) -> usize {
    (0..m.cell_total()).filter(|&c| m.is_inside(c)).count()
}

/// A maze of the given half-size with no open edge and every cell inside.
fn closed_maze(half_size: usize) -> Maze {
    let n = 2 * half_size + 1;
    let count = n * n * n;
    Maze { half_size, inside: vec![true; count], open: vec![false; 3 * count] }
}

fn open_edge(m: &mut Maze, c: usize, a: usize) {
    m.open[3 * c + a] = true;
}

#[test]
fn lattice_indexing() {
    assert_eq!(cell_count(3), 27);
    assert_eq!(cell_count(5), 125);
    // cell 22 = 1 + 3 * 1 + 9 * 2
    assert_eq!(coord_of(3, 22, 0), 1);
    assert_eq!(coord_of(3, 22, 1), 1);
    assert_eq!(coord_of(3, 22, 2), 2);
    assert_eq!(stride_of(5, 2), 25);
}

#[test]
fn spanning_tree_of_half_size_one() {
    let mut rng = seeded_rng(7);
    let m = Maze::new_kruskal(1, 0, [false, false, false], &mut rng);
    assert_eq!(m.cell_total(), 27);
    assert_eq!(m.open_edge_count(), 26);
    assert!(all_connected(&m));
    assert_eq!(inside_count(&m), 27);
}

#[test]
fn spanning_is_connected_for_several_sizes_and_jitters() {
    for h in 1..4 {
        for seed in 0..3u64 {
            let mut rng = seeded_rng(seed);
            let m = Maze::new_kruskal(h, 0, [seed == 1, false, seed == 2], &mut rng);
            let cells = m.cell_total();
            assert_eq!(m.open_edge_count(), cells - 1);
            assert!(all_connected(&m));
        }
    }
}

#[test]
fn loops_raise_the_open_edge_count() {
    let mut rng = seeded_rng(3);
    let m = Maze::new_kruskal(2, 300_000, [false, false, false], &mut rng);
    assert!(m.open_edge_count() >= 124);
    assert!(all_connected(&m));
}

#[test]
fn full_percent_opens_every_edge() {
    let mut rng = seeded_rng(11);
    let m = Maze::new_kruskal(2, 1_000_000, [false, true, false], &mut rng);
    // 3 axes * 25 lines * 4 edges
    assert_eq!(m.open_edge_count(), 300);
    for c in 0..125 {
        for a in 0..3 {
            assert_eq!(m.is_open(c, a), coord_of(5, c, a) + 1 < 5);
        }
    }
}

#[test]
fn spanning_follows_key_order() {
    // Preferred tree: every edge along x, then the y edges at x = 2, then the
    // z edges at x = 2, y = 2.
    let mut keys = vec![1u32; 81];
    for c in 0..27 {
        let (x, y) = (c % 3, (c / 3) % 3);
        if x < 2 {
            keys[3 * c] = 0;
        }
        if x == 2 && y < 2 {
            keys[3 * c + 1] = 0;
        }
        if x == 2 && y == 2 && c / 9 < 2 {
            keys[3 * c + 2] = 0;
        }
    }
    let rolls = vec![0u32; 81];
    let m = Maze::from_draws(1, 0, [false, false, false], &keys, &rolls);
    for c in 0..27 {
        for a in 0..3 {
            assert_eq!(m.is_open(c, a), keys[3 * c + a] == 0 && coord_of(3, c, a) < 2);
        }
    }
    assert_eq!(m.open_edge_count(), 26);
    assert!(!m.is_open(0, 1));
}

#[test]
fn rolls_below_percent_open_extra_edges() {
    let keys = vec![5u32; 81];
    let mut rolls = vec![50u32; 81];
    rolls[3 * 13 + 2] = 10;
    let spanned = Maze::from_draws(1, 20, [false, false, false], &keys, &vec![50u32; 81]);
    let m = Maze::from_draws(1, 20, [false, false, false], &keys, &rolls);
    assert!(m.is_open(13, 2));
    let extra = if spanned.is_open(13, 2) { 0 } else { 1 };
    assert_eq!(m.open_edge_count(), 26 + extra);
}

#[test]
fn determinism_for_a_fixed_seed() {
    let run = |seed: u64| {
        let mut rng = seeded_rng(seed);
        let mut m = Maze::new_kruskal(3, 100_000, [true, false, true], &mut rng);
        m.shape();
        (m.open.clone(), m.inside.clone())
    };
    assert_eq!(run(42), run(42));
    assert_eq!(run(5), run(5));
}

#[test]
fn circle_keeps_the_ball_and_isolates_the_rest() {
    let mut rng = seeded_rng(1);
    let mut m = Maze::new_kruskal(1, 1_000_000, [false, false, false], &mut rng);
    m.circle();
    // the centre and its six face neighbours
    assert_eq!(inside_count(&m), 7);
    for c in 0..27 {
        if !m.is_inside(c) {
            assert_eq!(m.degree(c), 0);
        }
    }
    assert_eq!(m.degree(13), 6);
    assert_eq!(m.open_edge_count(), 6);
}

#[test]
fn circle_on_a_larger_lattice() {
    let mut rng = seeded_rng(9);
    let mut m = Maze::new_kruskal(2, 400_000, [false, false, false], &mut rng);
    m.circle();
    // cells with dx^2 + dy^2 + dz^2 <= 4 around the centre of a 5^3 lattice
    assert_eq!(inside_count(&m), 33);
    for c in 0..125 {
        if !m.is_inside(c) {
            assert_eq!(m.degree(c), 0);
        }
    }
}

#[test]
fn fill_smallests_keeps_the_largest_region() {
    let mut m = closed_maze(1);
    // region of three cells: 0 - 1 - 2 along x
    open_edge(&mut m, 0, 0);
    open_edge(&mut m, 1, 0);
    // region of two cells: 18 - 19
    open_edge(&mut m, 18, 0);
    m.fill_smallests();
    assert_eq!(inside_count(&m), 3);
    assert!(m.is_inside(0) && m.is_inside(1) && m.is_inside(2));
    assert!(!m.is_inside(18) && !m.is_inside(19));
    assert!(!m.is_open(18, 0));
    assert_eq!(m.open_edge_count(), 2);
}

#[test]
fn fill_smallests_breaks_ties_by_lowest_cell() {
    let mut m = closed_maze(1);
    open_edge(&mut m, 19, 0);
    open_edge(&mut m, 4, 1);
    m.fill_smallests();
    assert_eq!(inside_count(&m), 2);
    assert!(m.is_inside(4) && m.is_inside(7));
    assert!(!m.is_inside(19) && !m.is_inside(20));
}

#[test]
fn fill_smallests_ignores_cells_outside() {
    let mut m = closed_maze(1);
    open_edge(&mut m, 0, 0);
    open_edge(&mut m, 1, 0);
    open_edge(&mut m, 2, 1);
    m.inside[0] = false;
    m.inside[1] = false;
    open_edge(&mut m, 24, 0);
    open_edge(&mut m, 25, 0);
    m.fill_smallests();
    assert!(m.is_inside(24) && m.is_inside(25) && m.is_inside(26));
    assert_eq!(inside_count(&m), 3);
    assert_eq!(m.open_edge_count(), 2);
}

#[test]
fn dead_end_sweep_reports_change() {
    let mut m = closed_maze(1);
    // a square loop 0 - 1 - 4 - 3 - 0 with a stub 1 - 2
    open_edge(&mut m, 0, 0);
    open_edge(&mut m, 1, 0);
    open_edge(&mut m, 1, 1);
    open_edge(&mut m, 3, 0);
    open_edge(&mut m, 0, 1);
    assert!(m.fill_dead_corridors());
    assert!(!m.is_inside(2));
    assert!(!m.is_open(1, 0));
    assert_eq!(m.open_edge_count(), 4);
    assert!(!m.fill_dead_corridors());
    assert_eq!(m.open_edge_count(), 4);
}

#[test]
fn dead_ends_vanish_at_fixpoint() {
    let mut m = closed_maze(1);
    // a corridor 0 - 1 - 2 - 5 - 8 and a loop 9 - 10 - 13 - 12 - 9
    open_edge(&mut m, 0, 0);
    open_edge(&mut m, 1, 0);
    open_edge(&mut m, 2, 1);
    open_edge(&mut m, 5, 1);
    open_edge(&mut m, 9, 0);
    open_edge(&mut m, 10, 1);
    open_edge(&mut m, 12, 0);
    open_edge(&mut m, 9, 1);
    m.fill_all_dead_corridors();
    for c in 0..27 {
        assert_ne!(m.degree(c), 1);
    }
    assert_eq!(m.open_edge_count(), 4);
    assert!(!m.fill_dead_corridors());
}

#[test]
fn tree_is_eaten_entirely_by_dead_end_sweeps() {
    let mut rng = seeded_rng(2);
    let mut m = Maze::new_kruskal(1, 0, [false, false, false], &mut rng);
    m.fill_all_dead_corridors();
    assert_eq!(m.open_edge_count(), 0);
}

#[test]
fn reduce_zero_changes_nothing() {
    let mut rng = seeded_rng(4);
    let mut m = Maze::new_kruskal(2, 200_000, [false, false, false], &mut rng);
    m.circle();
    let (open, inside) = (m.open.clone(), m.inside.clone());
    m.reduce(0);
    assert_eq!(m.open, open);
    assert_eq!(m.inside, inside);
}

#[test]
fn reduce_trims_dead_ends_on_faces() {
    let mut m = closed_maze(1);
    // 0 - 1 - 4 - 13: cell 0 is on a face with one edge; 13 is the centre
    open_edge(&mut m, 0, 0);
    open_edge(&mut m, 1, 1);
    open_edge(&mut m, 4, 2);
    m.reduce(1);
    assert!(!m.is_inside(0));
    assert!(!m.is_open(0, 0));
    // the trim runs on: 1 and 4 became dead ends on faces; the centre lies
    // on no face and stays
    assert!(!m.is_inside(1) && !m.is_inside(4));
    assert_eq!(m.open_edge_count(), 0);
    assert!(m.is_inside(13));
    // isolated face cells leave the shape
    assert!(!m.is_inside(26));
}

#[test]
fn walls_of_a_single_cell() {
    let m = closed_maze(0);
    let walls = m.build_colors();
    let expected = vec![
        Wall { x: 1, y: 0, z: 0, color: 0 },
        Wall { x: 0, y: 1, z: 0, color: 1 },
        Wall { x: 0, y: 0, z: 1, color: 2 },
        Wall { x: -1, y: 0, z: 0, color: 0 },
        Wall { x: 0, y: -1, z: 0, color: 1 },
        Wall { x: 0, y: 0, z: -1, color: 2 },
    ];
    assert_eq!(walls, expected);
}

#[test]
fn walls_skip_open_sides_and_outside_cells() {
    let mut m = closed_maze(1);
    for c in 0..27 {
        m.inside[c] = c == 13 || c == 14;
    }
    open_edge(&mut m, 13, 0);
    let walls = m.build_colors();
    assert_eq!(walls.len(), 10);
    assert!(!walls.contains(&Wall { x: 1, y: 0, z: 0, color: 0 }));
    assert!(walls.contains(&Wall { x: -1, y: 0, z: 0, color: 0 }));
    assert!(walls.contains(&Wall { x: 3, y: 0, z: 0, color: 0 }));
}

#[test]
fn builder_rejects_degenerate_sizes() {
    let mut rng = seeded_rng(0);
    let zero = LevelBuilder { half_size: 0, x_shift: false, y_shift: false, z_shift: false, percent: 50_000, columns: 0 };
    assert!(matches!(zero.build(&mut rng), Err(LevelError::NoUsableRoom)));
    let big = LevelBuilder { half_size: 501, x_shift: false, y_shift: false, z_shift: false, percent: 50_000, columns: 0 };
    assert!(matches!(big.build(&mut rng), Err(LevelError::TooLarge)));
}

#[test]
fn builder_produces_a_level() {
    let mut rng = seeded_rng(12);
    let b = LevelBuilder { half_size: 4, x_shift: true, y_shift: false, z_shift: false, percent: 600_000, columns: 0 };
    let level = b.build(&mut rng).expect("a level");
    assert_eq!(level.player, (-14, 2, 2));
    assert!(inside_count(&level.maze) > 0);
    assert_eq!(level.walls, level.maze.build_colors());
    let first = (0..level.maze.cell_total()).find(|&c| level.maze.is_inside(c)).expect("a room");
    let reached = region(&level.maze, first);
    for c in 0..level.maze.cell_total() {
        assert_eq!(reached[c], level.maze.is_inside(c));
        assert_ne!(level.maze.degree(c), 1);
    }
    for c in 0..level.maze.cell_total() {
        if !level.maze.is_inside(c) {
            assert_eq!(level.maze.degree(c), 0);
        }
    }
}

#[test]
fn sweeps_keep_the_loop_connected() {
    let mut m = closed_maze(1);
    // a loop 0 - 1 - 4 - 3 - 0 with stubs 4 - 5 - 8 and 3 - 6
    open_edge(&mut m, 0, 0);
    open_edge(&mut m, 1, 1);
    open_edge(&mut m, 3, 0);
    open_edge(&mut m, 0, 1);
    open_edge(&mut m, 4, 0);
    open_edge(&mut m, 5, 1);
    open_edge(&mut m, 3, 1);
    m.fill_all_dead_corridors();
    assert_eq!(m.open_edge_count(), 4);
    let reached = region(&m, 0);
    for c in [0usize, 1, 3, 4] {
        assert!(reached[c]);
        assert!(m.is_inside(c));
    }
    for c in [5usize, 6, 8] {
        assert!(!m.is_inside(c));
        assert_eq!(m.degree(c), 0);
    }
}

#[test]
fn from_maze_without_passage_has_no_room() {
    let mut m = closed_maze(1);
    for c in 0..27 {
        m.inside[c] = c == 13;
    }
    assert!(matches!(Level::from_maze(m), Err(LevelError::NoUsableRoom)));
}

#[test]
fn from_maze_with_a_passage_keeps_the_maze() {
    let mut m = closed_maze(1);
    for c in 0..27 {
        m.inside[c] = c == 13 || c == 14;
    }
    open_edge(&mut m, 13, 0);
    let level = Level::from_maze(m).expect("a level");
    assert_eq!(level.player, (-8, 2, 2));
    assert_eq!(level.walls.len(), 10);
    assert!(level.maze.is_open(13, 0));
    assert_eq!(level.maze.open_edge_count(), 1);
}

#[test]
fn shape_leaves_one_region_without_dead_ends() {
    let mut rng = seeded_rng(21);
    let mut m = Maze::new_kruskal(3, 500_000, [false, false, true], &mut rng);
    m.shape();
    let first = (0..m.cell_total()).find(|&c| m.is_inside(c)).expect("a room");
    let reached = region(&m, first);
    for c in 0..m.cell_total() {
        assert_eq!(reached[c], m.is_inside(c));
        assert_ne!(m.degree(c), 1);
    }
}

#[test]
fn reduce_runs_several_passes() {
    let mut m = closed_maze(1);
    // a corridor along x on the bottom face: 0 - 1 - 2, then 2 - 5 along y
    open_edge(&mut m, 0, 0);
    open_edge(&mut m, 1, 0);
    open_edge(&mut m, 2, 1);
    m.inside[13] = false;
    m.reduce(2);
    assert_eq!(m.open_edge_count(), 0);
    assert_eq!(inside_count(&m), 0);
}
