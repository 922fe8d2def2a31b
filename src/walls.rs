//! The geometry emitter: the solid wall faces of a finished maze, with the
//! colour of each.
use crate::graph::is_open_edge;
use crate::lattice::{cells, coord, coord_of, lemma_cells_bound};
use crate::maze::{is_open_back, Maze};
use vstd::prelude::*;

verus! {

/// A wall face, in doubled lattice coordinates centred on the middle cell: the
/// cell at coordinates `(x, y, z)` sits at `2 * (x - h, y - h, z - h)`, and the
/// wall between it and its neighbour along an axis one unit from there.
/// `color` is the index of the axis the wall faces.
#[derive(Clone, Copy, Debug, PartialEq, Eq)]
pub struct Wall {
    pub x: i64,
    pub y: i64,
    pub z: i64,
    pub color: u8,
}

/// Side `d` of cell `c`: the edge along axis `d` for `d < 3`, else the edge
/// arriving along axis `d - 3`.
pub open spec fn side_open(n: int, o: Seq<bool>, c: int, d: int) -> bool {
    if d < 3 {
        is_open_edge(n, o, c, d)
    } else {
        is_open_back(n, o, c, d - 3)
    }
}

pub open spec fn side_offset(d: int, a: int) -> int {
    if d == a {
        1
    } else if d == a + 3 {
        -1
    } else {
        0
    }
}

/// The wall on side `d` of cell `c`.
pub open spec fn wall_at(h: int, c: int, d: int) -> Wall {
    let n = 2 * h + 1;
    Wall {
        x: (2 * (coord(n, c, 0) - h) + side_offset(d, 0)) as i64,
        y: (2 * (coord(n, c, 1) - h) + side_offset(d, 1)) as i64,
        z: (2 * (coord(n, c, 2) - h) + side_offset(d, 2)) as i64,
        color: (if d < 3 {
            d
        } else {
            d - 3
        }) as u8,
    }
}

impl Maze {
    /// The walls of the first `d` sides of cell `c`: a side of an inside cell
    /// without an open edge is a wall.
    pub open spec fn cell_walls(&self, c: int, d: int) -> Seq<Wall>
        decreases d,
    {
        if d <= 0 {
            Seq::empty()
        } else {
            self.cell_walls(c, d - 1) + if self.inside@[c] && !side_open(
                self.n(),
                self.open@,
                c,
                d - 1,
            ) {
                seq![wall_at(self.half_size as int, c, d - 1)]
            } else {
                Seq::empty()
            }
        }
    }

    /// The walls of the cells below `k`, cell by cell.
    pub open spec fn walls_upto(&self, k: int) -> Seq<Wall>
        decreases k,
    {
        if k <= 0 {
            Seq::empty()
        } else {
            self.walls_upto(k - 1) + self.cell_walls(k - 1, 6)
        }
    }

    /// Every solid side of every inside cell, in cell order and, within a
    /// cell, along axes 0, 1, 2 forward and then backward.
    pub fn build_colors(&self) -> (r: Vec<Wall>)
        requires
            self.wf(),
        ensures
            r@ == self.walls_upto(cells(self.n())),
    {
        proof {
            lemma_cells_bound(self.n());
        }
        let n = self.side();
        let h = self.half_size as i64;
        let count = self.cell_total();
        let mut r: Vec<Wall> = Vec::new();
        let mut c: usize = 0;
        while c < count
            invariant
                self.wf(),
                n == self.n(),
                h == self.half_size,
                count == cells(self.n()),
                c <= count,
                r@ == self.walls_upto(c as int),
            decreases count - c,
        {
            let mut d: usize = 0;
            while d < 6
                invariant
                    self.wf(),
                    n == self.n(),
                    h == self.half_size,
                    count == cells(self.n()),
                    c < count,
                    d <= 6,
                    r@ == self.walls_upto(c as int) + self.cell_walls(c as int, d as int),
                decreases 6 - d,
            {
                let a = if d < 3 {
                    d
                } else {
                    d - 3
                };
                let open = if d < 3 {
                    self.is_open(c, a)
                } else {
                    self.is_open_from_back(c, a)
                };
                if self.inside[c] && !open {
                    let x = 2 * (coord_of(n, c, 0) as i64 - h) + if d == 0 {
                        1i64
                    } else if d == 3 {
                        -1i64
                    } else {
                        0i64
                    };
                    let y = 2 * (coord_of(n, c, 1) as i64 - h) + if d == 1 {
                        1i64
                    } else if d == 4 {
                        -1i64
                    } else {
                        0i64
                    };
                    let z = 2 * (coord_of(n, c, 2) as i64 - h) + if d == 2 {
                        1i64
                    } else if d == 5 {
                        -1i64
                    } else {
                        0i64
                    };
                    let w = Wall { x, y, z, color: a as u8 };
                    assert(w == wall_at(self.half_size as int, c as int, d as int));
                    r.push(w);
                }
                proof {
                    assert(self.cell_walls(c as int, d + 1) == self.cell_walls(c as int, d as int) + if self.inside@[c as int]
                        && !side_open(self.n(), self.open@, c as int, d as int) {
                        seq![wall_at(self.half_size as int, c as int, d as int)]
                    } else {
                        Seq::empty()
                    });
                }
                d = d + 1;
            }
            c = c + 1;
        }
        r
    }
}

} // verus!
