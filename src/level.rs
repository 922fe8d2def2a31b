//! Level assembly: runs the whole generation pipeline and emits the walls and
//! the player's spawn point.
use crate::graph::{is_open_edge, reach};
use crate::lattice::{cells, MAX_HALF_SIZE};
use crate::maze::Maze;
use crate::shaping::closed_outside;
use crate::walls::Wall;
use vstd::prelude::*;

verus! {

/// Distance of the player's spawn point in front of the lattice, along the
/// first axis, in cells.
pub const PLAYER_DISTANCE: i64 = 3;

/// Why no level could be built.
#[derive(Clone, Copy, Debug, PartialEq, Eq)]
pub enum LevelError {
    /// The configuration, or the draws, left no open passage in the shape.
    NoUsableRoom,
    /// The half-size is above `MAX_HALF_SIZE`.
    TooLarge,
}

/// Configuration of a level.
///
/// `percent` is the chance, in units of `CHANCE_SCALE`, that an edge left
/// closed by the spanning pass is opened as an extra loop. `columns` is kept
/// for features placed on top of the maze; the generator itself does not read
/// it.
pub struct LevelBuilder {
    pub half_size: usize,
    pub x_shift: bool,
    pub y_shift: bool,
    pub z_shift: bool,
    pub percent: u32,
    pub columns: usize,
}

/// A generated level: the finished maze, its walls, and the player's spawn
/// point, both in the doubled coordinates of `Wall`.
pub struct Level {
    pub maze: Maze,
    pub walls: Vec<Wall>,
    pub player: (i64, i64, i64),
}

/// Some cell of `m` is inside the shape.
pub open spec fn has_room(m: Maze) -> bool {
    exists|c: int| 0 <= c < cells(m.n()) && #[trigger] m.inside@[c]
}

/// Some edge of `m` is open.
pub open spec fn has_passage(m: Maze) -> bool {
    exists|c: int, a: int| #[trigger] is_open_edge(m.n(), m.open@, c, a)
}

/// The cells inside `m` form one connected region without dead ends, and no
/// open edge leaves it.
pub open spec fn is_shaped(m: Maze) -> bool {
    &&& m.wf()
    &&& closed_outside(m.n(), m.inside@, m.open@)
    &&& !m.has_dead_end()
    &&& forall|u: int, v: int|
        0 <= u < cells(m.n()) && 0 <= v < cells(m.n()) && #[trigger] m.inside@[u]
            && #[trigger] m.inside@[v] ==> reach(m.n(), m.open@, u, v)
}

impl Maze {
    /// Shapes a freshly spanned maze: one trimming pass, carving to the ball,
    /// keeping the largest region, closing dead ends until none is left, and a
    /// last trimming pass.
    pub fn shape(&mut self)
        requires
            old(self).wf(),
        ensures
            is_shaped(*final(self)),
            final(self).half_size == old(self).half_size,
    {
        self.reduce(1);
        self.circle();
        self.fill_smallests();
        let ghost cleaned = self.open@;
        let ghost cleaned_inside = self.inside@;
        self.fill_all_dead_corridors();
        let ghost swept = self.open@;
        let ghost swept_inside = self.inside@;
        self.reduce(1);
        assert(self.open@ == swept);
        assert forall|u: int, v: int|
            0 <= u < cells(self.n()) && 0 <= v < cells(self.n()) && #[trigger] self.inside@[u]
                && #[trigger] self.inside@[v] implies reach(self.n(), self.open@, u, v) by {
            assert(swept_inside[u] && swept_inside[v]);
            assert(cleaned_inside[u] && cleaned_inside[v]);
            assert(reach(self.n(), cleaned, u, v));
            assert(reach(self.n(), swept, u, v));
        }
    }
}

impl Level {
    /// Emits the walls and the spawn point of a maze. Fails with
    /// `NoUsableRoom` exactly when the maze has no open edge.
    pub fn from_maze(maze: Maze) -> (r: Result<Level, LevelError>)
        requires
            maze.wf(),
        ensures
            r is Err <==> !has_passage(maze),
            r matches Err(e) ==> e == LevelError::NoUsableRoom,
            r matches Ok(level) ==> {
                &&& level.maze == maze
                &&& level.walls@ == maze.walls_upto(cells(maze.n()))
                &&& level.player.0 == 2 * (-PLAYER_DISTANCE - maze.half_size)
                &&& level.player.1 == 2
                &&& level.player.2 == 2
            },
    {
        let count = maze.cell_total();
        let mut found = false;
        let mut c: usize = 0;
        while c < count
            invariant
                maze.wf(),
                count == cells(maze.n()),
                c <= count,
                found ==> has_passage(maze),
                !found ==> forall|c2: int, a2: int|
                    0 <= c2 < c ==> !#[trigger] is_open_edge(maze.n(), maze.open@, c2, a2),
            decreases count - c,
        {
            let mut a: usize = 0;
            while a < 3
                invariant
                    maze.wf(),
                    count == cells(maze.n()),
                    c < count,
                    a <= 3,
                    found ==> has_passage(maze),
                    !found ==> forall|c2: int, a2: int|
                        (0 <= c2 < c || (c2 == c && a2 < a)) ==> !#[trigger] is_open_edge(
                            maze.n(),
                            maze.open@,
                            c2,
                            a2,
                        ),
                decreases 3 - a,
            {
                if maze.is_open(c, a) {
                    found = true;
                }
                a = a + 1;
            }
            c = c + 1;
        }
        if !found {
            return Err(LevelError::NoUsableRoom);
        }
        let walls = maze.build_colors();
        let h = maze.half_size as i64;
        Ok(Level { maze, walls, player: (2 * (-PLAYER_DISTANCE - h), 2, 2) })
    }
}

impl LevelBuilder {
    /// Generates a level from the draws of `rng`. A half-size of zero gives
    /// `NoUsableRoom`, and `TooLarge` comes exactly for one above
    /// `MAX_HALF_SIZE`; otherwise the spanned maze is shaped and the result is
    /// that of `Level::from_maze` on it.
    pub fn build(&self, rng: &mut rand::rngs::StdRng) -> (r: Result<Level, LevelError>)
        ensures
            self.half_size == 0 ==> r == Err::<Level, LevelError>(LevelError::NoUsableRoom),
            (r == Err::<Level, LevelError>(LevelError::TooLarge)) <==> self.half_size > MAX_HALF_SIZE,
            r matches Ok(level) ==> {
                &&& is_shaped(level.maze)
                &&& has_room(level.maze)
                &&& has_passage(level.maze)
                &&& level.maze.half_size == self.half_size
                &&& level.walls@ == level.maze.walls_upto(cells(level.maze.n()))
                &&& level.player.0 == 2 * (-PLAYER_DISTANCE - self.half_size)
                &&& level.player.1 == 2
                &&& level.player.2 == 2
            },
    {
        if self.half_size == 0 {
            return Err(LevelError::NoUsableRoom);
        }
        if self.half_size > MAX_HALF_SIZE {
            return Err(LevelError::TooLarge);
        }
        let bug = [self.x_shift, self.y_shift, self.z_shift];
        let mut maze = Maze::new_kruskal(self.half_size, self.percent, bug, rng);
        maze.shape();
        let r = Level::from_maze(maze);
        proof {
            if r is Ok {
                let m = r->Ok_0.maze;
                let (c, a) = choose|c: int, a: int| #[trigger] is_open_edge(m.n(), m.open@, c, a);
                assert(is_open_edge(m.n(), m.open@, c, a));
                assert(m.inside@[c]);
            }
        }
        r
    }
}

} // verus!
