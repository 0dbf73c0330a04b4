use vstd::prelude::*;
use rand::rngs::StdRng;
use crate::carve::in_wall_blob;
use crate::grid::{Cell, Dim};
use crate::maze::{circled, reduced_by, Maze};
use crate::prune::{dead_corridor_trail, keeps_largest};

verus! {

/// The steps of the level pipeline from the carved maze `carved` to `last`: strip the outer
/// layer, seal the new one, keep the largest zone of free cells, clear the dead-end corridors
/// down to a fixed point, strip the outer layer again.
pub open spec fn level_steps(carved: Maze, cut: Maze, sealed: Maze, kept: Maze, cleared: Maze, last: Maze) -> bool {
    &&& reduced_by(carved, cut, 1)
    &&& circled(cut, sealed)
    &&& exists|changed: bool| #[trigger] keeps_largest(sealed, kept, changed)
    &&& exists|trail: Seq<Maze>| #[trigger] dead_corridor_trail(trail, kept, cleared)
    &&& cleared.no_dead_end()
    &&& reduced_by(cleared, last, 1)
}

/// The maze of a level: a cube of side `2 * half_size + 1` carved with the given percentage and
/// lattice shifts, then taken through `level_steps`.
pub fn build_level_maze(
    half_size: isize,
    x_shift: bool,
    y_shift: bool,
    z_shift: bool,
    percent: u64,
    rng: &mut StdRng,
) -> (r: Maze)
    requires
        2 <= half_size <= 127,
        percent <= 100,
    ensures
        r.wf(),
        r.spec_dim() == Dim::Three,
        r.spec_size() == (Cell { x: (2 * half_size - 3) as isize, y: (2 * half_size - 3) as isize, z: (2 * half_size - 3) as isize }),
        exists|carved: Maze, cut: Maze, sealed: Maze, kept: Maze, cleared: Maze|
            #[trigger] level_steps(carved, cut, sealed, kept, cleared, r) && {
                &&& carved.spec_dim() == Dim::Three
                &&& carved.spec_size() == (Cell { x: (2 * half_size + 1) as isize, y: (2 * half_size + 1) as isize, z: (2 * half_size + 1) as isize })
                &&& forall|c: Cell| #[trigger] carved.wall(c) ==> in_wall_blob(
                    Dim::Three,
                    carved.spec_size(),
                    Cell { x: if x_shift { 1 } else { 0 }, y: if y_shift { 1 } else { 0 }, z: if z_shift { 1 } else { 0 } },
                    c,
                )
            },
{
    let side = half_size * 2 + 1;
    let size = Cell::new(side, side, side);
    assert(side * side <= 255 * 255 && side * side * side <= 255 * 255 * 255) by (nonlinear_arith)
        requires 5 <= side <= 255;
    let bug = Cell::new(if x_shift { 1 } else { 0 }, if y_shift { 1 } else { 0 }, if z_shift { 1 } else { 0 });
    let mut maze = Maze::new_kruskal(Dim::Three, size, percent, bug, rng);
    let ghost carved = maze;
    maze.reduce(1);
    let ghost cut = maze;
    maze.circle();
    let ghost sealed = maze;
    let changed = maze.fill_smallests();
    let ghost kept = maze;
    maze.fill_dead_corridors();
    let ghost cleared = maze;
    maze.reduce(1);
    proof {
        assert(reduced_by(carved, cut, 1));
        assert(circled(cut, sealed));
        assert(keeps_largest(sealed, kept, changed));
        assert(cleared.no_dead_end());
        assert(reduced_by(cleared, maze, 1));
        assert(level_steps(carved, cut, sealed, kept, cleared, maze));
    }
    maze
}

} // verus!
