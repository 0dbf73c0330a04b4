use vstd::prelude::*;
use crate::grid::{
    cell, in_bounds, in_grid, index, index_of, lemma_index_in_range, lemma_index_injective, valid_size,
    cell_at, cell_of, lemma_cell_of_index, shift, MAX_SIDE, MAX_CELLS, near_cell, small_cell, volume, Cell, Dim,
};

verus! {

/// A legal move from a cell: the offset to the destination and its cost.
#[derive(Clone, Copy, Debug, PartialEq, Eq, Structural)]
pub struct Opening {
    pub cell: Cell,
    pub cost: isize,
}

/// The unit steps along each axis of `dim`.
pub open spec fn neighbour_offsets(dim: Dim) -> Seq<Cell> {
    match dim {
        Dim::Two => seq![cell(-1, 0, 0), cell(1, 0, 0), cell(0, -1, 0), cell(0, 1, 0)],
        Dim::Three => seq![
            cell(-1, 0, 0), cell(1, 0, 0), cell(0, -1, 0),
            cell(0, 1, 0), cell(0, 0, -1), cell(0, 0, 1),
        ],
    }
}

/// Every offset reached by stepping by one along a non-empty set of axes of `dim`.
pub open spec fn opening_offsets(dim: Dim) -> Seq<Cell> {
    match dim {
        Dim::Two => seq![
            cell(-1, 0, 0), cell(1, 0, 0), cell(0, -1, 0), cell(0, 1, 0),
            cell(-1, -1, 0), cell(-1, 1, 0), cell(1, -1, 0), cell(1, 1, 0),
        ],
        Dim::Three => seq![
            cell(-1, 0, 0), cell(1, 0, 0), cell(0, -1, 0), cell(0, 1, 0), cell(0, 0, -1), cell(0, 0, 1),
            cell(-1, -1, 0), cell(-1, 1, 0), cell(1, -1, 0), cell(1, 1, 0),
            cell(0, -1, -1), cell(0, -1, 1), cell(0, 1, -1), cell(0, 1, 1),
            cell(-1, 0, -1), cell(-1, 0, 1), cell(1, 0, -1), cell(1, 0, 1),
            cell(-1, -1, -1), cell(1, 1, 1), cell(-1, -1, 1), cell(-1, 1, -1),
            cell(1, -1, -1), cell(-1, 1, 1), cell(1, 1, -1), cell(1, -1, 1),
        ],
    }
}

pub open spec fn axes_moved(d: Cell) -> int {
    (if d.x != 0 { 1int } else { 0 }) + (if d.y != 0 { 1int } else { 0 }) + (if d.z != 0 { 1int } else { 0 })
}

/// 10 for a straight step, 15 across a face diagonal, 17 across a corner diagonal.
pub open spec fn opening_cost(d: Cell) -> int {
    if axes_moved(d) == 1 {
        10
    } else if axes_moved(d) == 2 {
        15
    } else {
        17
    }
}

/// The offset of each axis of `dim` moved by one: the amount a border of width `k` shifts cells by.
pub open spec fn diagonal(dim: Dim, k: int) -> Cell {
    cell(k, k, if dim == Dim::Three { k } else { 0 })
}

/// `c` lies on the outer layer of the grid along one of the axes of `dim`.
pub open spec fn on_rim(dim: Dim, c: Cell, size: Cell) -> bool {
    ||| c.x == 0 || c.x == size.x - 1
    ||| c.y == 0 || c.y == size.y - 1
    ||| dim == Dim::Three && (c.z == 0 || c.z == size.z - 1)
}

/// The number of unset entries.
pub open spec fn count_free(s: Seq<bool>) -> nat
    decreases s.len(),
{
    if s.len() == 0 {
        0
    } else {
        count_free(s.drop_last()) + (if s.last() { 0nat } else { 1nat })
    }
}

proof fn lemma_count_free_update(s: Seq<bool>, i: int)
    requires
        0 <= i < s.len(),
        !s[i],
    ensures
        count_free(s.update(i, true)) + 1 == count_free(s),
    decreases s.len(),
{
    if i == s.len() - 1 {
        assert(s.update(i, true).drop_last() =~= s.drop_last());
    } else {
        assert(s.update(i, true).drop_last() =~= s.drop_last().update(i, true));
        lemma_count_free_update(s.drop_last(), i);
    }
}

/// An n-dimensional grid of cells, some of which are walls.
pub struct Maze {
    pub(crate) dim: Dim,
    pub(crate) size: Cell,
    pub(crate) walls: Vec<bool>,
    pub(crate) neighbours: Vec<Cell>,
    pub(crate) openings: Vec<Opening>,
}

impl Maze {
    /// The extent fits the dimension, one wall flag stands for each cell of the grid, and the
    /// neighbour and opening tables are those of the dimension.
    pub open(crate) spec fn wf(&self) -> bool {
        &&& valid_size(self.dim, self.size)
        &&& self.walls@.len() == volume(self.size)
        &&& self.neighbours@ == neighbour_offsets(self.dim)
        &&& self.openings@.len() == opening_offsets(self.dim).len()
        &&& forall|i: int|
            0 <= i < self.openings@.len() ==> {
                &&& (#[trigger] self.openings@[i]).cell == opening_offsets(self.dim)[i]
                &&& self.openings@[i].cost == opening_cost(self.openings@[i].cell)
            }
    }

    pub open(crate) spec fn spec_dim(&self) -> Dim {
        self.dim
    }

    pub open(crate) spec fn spec_size(&self) -> Cell {
        self.size
    }

    /// `c` is a wall of the maze. Walls lie inside the grid.
    pub closed spec fn wall(&self, c: Cell) -> bool {
        in_bounds(c, self.size) && self.walls@[index_of(c, self.size)]
    }

    /// The number of free cells of the grid.
    pub open(crate) spec fn free_cells(&self) -> nat {
        count_free(self.walls@)
    }

    /// Walls lie inside the grid.
    pub broadcast proof fn lemma_walls_in_bounds(&self, c: Cell)
        ensures
            #[trigger] self.wall(c) ==> in_bounds(c, self.spec_size()),
    {
    }

    pub fn dim(&self) -> (r: Dim)
        ensures
            r == self.spec_dim(),
    {
        self.dim
    }

    pub fn size(&self) -> (r: Cell)
        ensures
            r == self.spec_size(),
    {
        self.size
    }

    pub fn is_wall(&self, c: &Cell) -> (r: bool)
        requires
            self.wf(),
        ensures
            r == self.wall(*c),
    {
        if in_grid(c, &self.size) {
            self.walls[index(c, &self.size)]
        } else {
            false
        }
    }

    /// Makes `c` a wall.
    pub(crate) fn set_wall(&mut self, c: &Cell)
        requires
            old(self).wf(),
            in_bounds(*c, old(self).size),
        ensures
            final(self).wf(),
            final(self).dim == old(self).dim,
            final(self).size == old(self).size,
            forall|d: Cell| #[trigger] final(self).wall(d) == (old(self).wall(d) || d == *c),
            final(self).free_cells() + (if old(self).wall(*c) { 0nat } else { 1nat }) == old(self).free_cells(),
    {
        let i = index(c, &self.size);
        proof {
            if !self.walls@[i as int] {
                lemma_count_free_update(self.walls@, i as int);
            } else {
                assert(self.walls@.update(i as int, true) =~= self.walls@);
            }
        }
        self.walls.set(i, true);
        proof {
            assert forall|d: Cell| #[trigger] self.wall(d) == (old(self).wall(d) || d == *c) by {
                if in_bounds(d, self.size) {
                    lemma_index_in_range(d, self.size);
                    if index_of(d, self.size) == i {
                        lemma_index_injective(d, *c, self.size);
                    }
                }
            }
        }
    }

    /// Makes `c` a wall.
    pub fn add_wall(&mut self, c: &Cell)
        requires
            old(self).wf(),
            in_bounds(*c, old(self).spec_size()),
        ensures
            final(self).wf(),
            final(self).spec_dim() == old(self).spec_dim(),
            final(self).spec_size() == old(self).spec_size(),
            forall|d: Cell| #[trigger] final(self).wall(d) == (old(self).wall(d) || d == *c),
    {
        self.set_wall(c);
    }

    /// The walls, in layout order.
    pub fn walls(&self) -> (r: Vec<Cell>)
        requires
            self.wf(),
        ensures
            forall|c: Cell| #[trigger] r@.contains(c) <==> self.wall(c),
    {
        let n = cell_count(&self.size);
        let mut r: Vec<Cell> = Vec::new();
        let mut t: usize = 0;
        while t < n
            invariant
                self.wf(),
                n == volume(self.size),
                t <= n,
                forall|c: Cell|
                    #[trigger] r@.contains(c) <==> in_bounds(c, self.size) && index_of(c, self.size) < t && self.wall(c),
            decreases n - t,
        {
            proof {
                crate::grid::lemma_layout(self.size);
            }
            let c = cell_at(t, &self.size);
            let ghost rb = r@;
            if self.walls[t] {
                r.push(c);
            }
            proof {
                assert forall|x: Cell|
                    #[trigger] r@.contains(x) <==> in_bounds(x, self.size) && index_of(x, self.size) < t + 1 && self.wall(x) by {
                    if r@.contains(x) && x != c {
                        let j = choose|j: int| 0 <= j < r@.len() && r@[j] == x;
                        assert(rb[j] == x);
                        assert(rb.contains(x));
                    }
                    if x == c && r@.len() > rb.len() {
                        assert(r@[r@.len() - 1] == c);
                    }
                    if in_bounds(x, self.size) && index_of(x, self.size) < t && self.wall(x) {
                        assert(rb.contains(x));
                        let j = choose|j: int| 0 <= j < rb.len() && rb[j] == x;
                        assert(r@[j] == x);
                    }
                }
            }
            t = t + 1;
        }
        proof {
            crate::grid::lemma_layout(self.size);
        }
        r
    }

    /// Makes `c` free.
    pub(crate) fn clear_wall(&mut self, c: &Cell)
        requires
            old(self).wf(),
            in_bounds(*c, old(self).size),
        ensures
            final(self).wf(),
            final(self).dim == old(self).dim,
            final(self).size == old(self).size,
            forall|d: Cell| #[trigger] final(self).wall(d) == (old(self).wall(d) && d != *c),
    {
        let i = index(c, &self.size);
        self.walls.set(i, false);
        proof {
            assert forall|d: Cell| #[trigger] self.wall(d) == (old(self).wall(d) && d != *c) by {
                if in_bounds(d, self.size) {
                    lemma_index_in_range(d, self.size);
                    if index_of(d, self.size) == i {
                        lemma_index_injective(d, *c, self.size);
                    }
                }
            }
        }
    }

    fn neighbours(dim: Dim) -> (r: Vec<Cell>)
        ensures
            r@ == neighbour_offsets(dim),
    {
        match dim {
            Dim::Two => vec![
                Cell::new(-1, 0, 0), Cell::new(1, 0, 0), Cell::new(0, -1, 0), Cell::new(0, 1, 0),
            ],
            Dim::Three => vec![
                Cell::new(-1, 0, 0), Cell::new(1, 0, 0), Cell::new(0, -1, 0),
                Cell::new(0, 1, 0), Cell::new(0, 0, -1), Cell::new(0, 0, 1),
            ],
        }
    }

    fn opening(x: isize, y: isize, z: isize) -> (r: Opening)
        requires
            -1 <= x <= 1,
            -1 <= y <= 1,
            -1 <= z <= 1,
        ensures
            r.cell == (Cell { x, y, z }),
            r.cost == opening_cost(r.cell),
    {
        let moved = (if x != 0 { 1isize } else { 0 }) + (if y != 0 { 1isize } else { 0 }) + (if z != 0 { 1isize } else { 0 });
        let cost = if moved == 1 {
            10
        } else if moved == 2 {
            15
        } else {
            17
        };
        Opening { cell: Cell::new(x, y, z), cost }
    }

    fn openings(dim: Dim) -> (r: Vec<Opening>)
        ensures
            r@.len() == opening_offsets(dim).len(),
            forall|i: int|
                0 <= i < r@.len() ==> {
                    &&& (#[trigger] r@[i]).cell == opening_offsets(dim)[i]
                    &&& r@[i].cost == opening_cost(r@[i].cell)
                },
    {
        match dim {
            Dim::Two => vec![
                Self::opening(-1, 0, 0), Self::opening(1, 0, 0), Self::opening(0, -1, 0), Self::opening(0, 1, 0),
                Self::opening(-1, -1, 0), Self::opening(-1, 1, 0), Self::opening(1, -1, 0), Self::opening(1, 1, 0),
            ],
            Dim::Three => vec![
                Self::opening(-1, 0, 0), Self::opening(1, 0, 0), Self::opening(0, -1, 0),
                Self::opening(0, 1, 0), Self::opening(0, 0, -1), Self::opening(0, 0, 1),
                Self::opening(-1, -1, 0), Self::opening(-1, 1, 0), Self::opening(1, -1, 0), Self::opening(1, 1, 0),
                Self::opening(0, -1, -1), Self::opening(0, -1, 1), Self::opening(0, 1, -1), Self::opening(0, 1, 1),
                Self::opening(-1, 0, -1), Self::opening(-1, 0, 1), Self::opening(1, 0, -1), Self::opening(1, 0, 1),
                Self::opening(-1, -1, -1), Self::opening(1, 1, 1), Self::opening(-1, -1, 1), Self::opening(-1, 1, -1),
                Self::opening(1, -1, -1), Self::opening(-1, 1, 1), Self::opening(1, 1, -1), Self::opening(1, -1, 1),
            ],
        }
    }
}

/// The extent of a maze of extent `size` once a border of width `k` is added on every side.
pub open spec fn grown(dim: Dim, size: Cell, k: int) -> Cell {
    shift(size, diagonal(dim, 2 * k))
}

/// The number of cells of a grid of extent `size`.
pub fn cell_count(size: &Cell) -> (r: usize)
    requires
        0 <= size.x <= MAX_SIDE,
        0 <= size.y <= MAX_SIDE,
        0 <= size.z <= MAX_SIDE,
        volume(*size) <= MAX_CELLS,
    ensures
        r == volume(*size),
{
    assert(0 <= size.x * size.y <= MAX_SIDE * MAX_SIDE) by (nonlinear_arith)
        requires 0 <= size.x <= MAX_SIDE, 0 <= size.y <= MAX_SIDE;
    size.x as usize * size.y as usize * size.z as usize
}

impl Maze {
    /// A maze of the given dimension with no cell.
    pub fn new_empty(dim: Dim) -> (r: Maze)
        ensures
            r.wf(),
            r.spec_dim() == dim,
            r.spec_size() == (Cell { x: 0, y: 0, z: if dim == Dim::Two { 1 } else { 0 } }),
            forall|c: Cell| !#[trigger] r.wall(c),
    {
        let size = Cell::new(0, 0, if dim == Dim::Two { 1 } else { 0 });
        Maze { dim, size, walls: Vec::new(), neighbours: Self::neighbours(dim), openings: Self::openings(dim) }
    }

    /// A maze of extent `size` with no wall.
    pub fn new_rectangle(dim: Dim, size: Cell) -> (r: Maze)
        requires
            valid_size(dim, size),
        ensures
            r.wf(),
            r.spec_dim() == dim,
            r.spec_size() == size,
            forall|c: Cell| !#[trigger] r.wall(c),
    {
        let n = cell_count(&size);
        let mut walls: Vec<bool> = Vec::new();
        let mut i: usize = 0;
        while i < n
            invariant
                i <= n,
                walls@.len() == i,
                forall|j: int| 0 <= j < i ==> !(#[trigger] walls@[j]),
            decreases n - i,
        {
            walls.push(false);
            i = i + 1;
        }
        let r = Maze { dim, size, walls, neighbours: Self::neighbours(dim), openings: Self::openings(dim) };
        assert forall|c: Cell| !r.wall(c) by {
            if in_bounds(c, size) {
                lemma_index_in_range(c, size);
            }
        }
        r
    }

    /// Every axis has the same extent.
    pub fn is_cuboid(&self) -> (r: bool)
        ensures
            r == (self.spec_size().y == self.spec_size().x && (self.spec_dim() == Dim::Three ==> self.spec_size().z
                == self.spec_size().x)),
    {
        self.size.y == self.size.x && (self.dim == Dim::Two || self.size.z == self.size.x)
    }

    /// Every wall lies inside the grid.
    pub fn check(&self) -> (r: bool)
        requires
            self.wf(),
        ensures
            r == (forall|c: Cell| #[trigger] self.wall(c) ==> in_bounds(c, self.spec_size())),
            r,
    {
        let n = cell_count(&self.size);
        let mut i: usize = 0;
        while i < n
            invariant
                i <= n,
                self.wf(),
                n == volume(self.size),
            decreases n - i,
        {
            let c = cell_at(i, &self.size);
            if self.walls[i] && !in_grid(&c, &self.size) {
                return false;
            }
            i = i + 1;
        }
        true
    }

    /// Removes a border of width `k` from every side and moves the remaining cells towards the origin.
    pub fn reduce(&mut self, k: isize)
        requires
            old(self).wf(),
            k > 0,
            old(self).spec_size().x >= 2 * k,
            old(self).spec_size().y >= 2 * k,
            old(self).spec_dim() == Dim::Three ==> old(self).spec_size().z >= 2 * k,
        ensures
            final(self).wf(),
            final(self).spec_dim() == old(self).spec_dim(),
            final(self).spec_size() == grown(old(self).spec_dim(), old(self).spec_size(), -(k as int)),
            forall|c: Cell| #[trigger]
                final(self).wall(c) == (in_bounds(c, final(self).spec_size()) && old(self).wall(
                    shift(c, diagonal(old(self).spec_dim(), k as int)),
                )),
    {
        let dl = Cell::new(k, k, if self.dim == Dim::Three { k } else { 0 });
        let new_size = Cell::new(self.size.x - 2 * k, self.size.y - 2 * k, self.size.z - 2 * dl.z);
        assert(volume(new_size) <= volume(self.size)) by (nonlinear_arith)
            requires
                0 <= new_size.x <= self.size.x,
                0 <= new_size.y <= self.size.y,
                0 <= new_size.z <= self.size.z;
        let n = cell_count(&new_size);
        let mut walls: Vec<bool> = Vec::new();
        let mut i: usize = 0;
        while i < n
            invariant
                i <= n,
                n == volume(new_size),
                self.wf(),
                dl == diagonal(self.dim, k as int),
                0 < k <= MAX_SIDE,
                0 <= new_size.x <= MAX_SIDE,
                0 <= new_size.y <= MAX_SIDE,
                0 <= new_size.z <= MAX_SIDE,
                new_size == grown(self.dim, self.size, -k),
                volume(new_size) <= MAX_CELLS,
                walls@.len() == i,
                forall|j: int| 0 <= j < i ==> #[trigger] walls@[j] == self.wall(shift(cell_of(j, new_size), dl)),
            decreases n - i,
        {
            let c = cell_at(i, &new_size);
            let o = c.plus(&dl);
            walls.push(self.is_wall(&o));
            i = i + 1;
        }
        let ghost prev = *self;
        self.walls = walls;
        self.size = new_size;
        assert forall|c: Cell| #[trigger]
            self.wall(c) == (in_bounds(c, new_size) && prev.wall(shift(c, dl))) by {
            if in_bounds(c, new_size) {
                lemma_index_in_range(c, new_size);
                lemma_cell_of_index(c, new_size);
            }
        }
    }

    /// Adds a border of width `k` on every side, moving the cells away from the origin.
    /// The new border holds no wall.
    pub fn extend(&mut self, k: isize)
        requires
            old(self).wf(),
            0 <= k <= MAX_SIDE,
            valid_size(old(self).spec_dim(), grown(old(self).spec_dim(), old(self).spec_size(), k as int)),
        ensures
            final(self).wf(),
            final(self).spec_dim() == old(self).spec_dim(),
            final(self).spec_size() == grown(old(self).spec_dim(), old(self).spec_size(), k as int),
            forall|c: Cell| #[trigger]
                final(self).wall(c) == (in_bounds(c, final(self).spec_size()) && old(self).wall(
                    shift(c, diagonal(old(self).spec_dim(), -(k as int))),
                )),
    {
        let dl = Cell::new(-k, -k, if self.dim == Dim::Three { -k } else { 0 });
        let new_size = Cell::new(self.size.x + 2 * k, self.size.y + 2 * k, self.size.z - 2 * dl.z);
        let n = cell_count(&new_size);
        let mut walls: Vec<bool> = Vec::new();
        let mut i: usize = 0;
        while i < n
            invariant
                i <= n,
                n == volume(new_size),
                self.wf(),
                dl == diagonal(self.dim, -(k as int)),
                0 <= k <= MAX_SIDE,
                valid_size(self.dim, new_size),
                walls@.len() == i,
                forall|j: int| 0 <= j < i ==> #[trigger] walls@[j] == self.wall(shift(cell_of(j, new_size), dl)),
            decreases n - i,
        {
            let c = cell_at(i, &new_size);
            let o = c.plus(&dl);
            walls.push(self.is_wall(&o));
            i = i + 1;
        }
        let ghost prev = *self;
        self.walls = walls;
        self.size = new_size;
        assert forall|c: Cell| #[trigger] self.wall(c) == (in_bounds(c, new_size) && prev.wall(shift(c, dl))) by {
            if in_bounds(c, new_size) {
                lemma_index_in_range(c, new_size);
                lemma_cell_of_index(c, new_size);
            }
        }
    }

    /// Makes a wall of every cell on the outer layer of the grid.
    pub fn circle(&mut self)
        requires
            old(self).wf(),
        ensures
            final(self).wf(),
            final(self).spec_dim() == old(self).spec_dim(),
            final(self).spec_size() == old(self).spec_size(),
            forall|c: Cell| #[trigger]
                final(self).wall(c) == (old(self).wall(c) || (in_bounds(c, old(self).spec_size()) && on_rim(
                    old(self).spec_dim(),
                    c,
                    old(self).spec_size(),
                ))),
    {
        let n = cell_count(&self.size);
        let ghost prev = *self;
        let mut i: usize = 0;
        while i < n
            invariant
                i <= n,
                n == volume(self.size),
                self.wf(),
                self.dim == prev.dim,
                self.size == prev.size,
                forall|j: int| 0 <= j < n ==> #[trigger] self.walls@[j] == (prev.walls@[j] || (j < i && on_rim(self.dim, cell_of(j, self.size), self.size))),
            decreases n - i,
        {
            let c = cell_at(i, &self.size);
            let rim = c.x == 0 || c.x == self.size.x - 1 || c.y == 0 || c.y == self.size.y - 1 || (self.dim
                == Dim::Three && (c.z == 0 || c.z == self.size.z - 1));
            if rim {
                self.walls.set(i, true);
            }
            i = i + 1;
        }
        assert forall|c: Cell| #[trigger]
            self.wall(c) == (prev.wall(c) || (in_bounds(c, self.size) && on_rim(self.dim, c, self.size))) by {
            if in_bounds(c, self.size) {
                lemma_index_in_range(c, self.size);
                lemma_cell_of_index(c, self.size);
            }
        }
    }
}

impl Maze {
    /// The cell at offset `(x, y, z)` from `c` is free, or the offset is null.
    pub open spec fn free_or_origin(&self, c: Cell, x: int, y: int, z: int) -> bool {
        (x == 0 && y == 0 && z == 0) || !self.wall(shift(c, cell(x, y, z)))
    }

    /// The move from `c` by the offset `d` is legal: its destination and every cell it steps
    /// across (one axis of the move at a time, two at a time) are free, so that no move cuts
    /// through the corner of a wall.
    pub open spec fn usable(&self, c: Cell, d: Cell) -> bool {
        &&& self.free_or_origin(c, d.x as int, 0, 0)
        &&& self.free_or_origin(c, 0, d.y as int, 0)
        &&& self.free_or_origin(c, 0, 0, d.z as int)
        &&& self.free_or_origin(c, d.x as int, d.y as int, 0)
        &&& self.free_or_origin(c, d.x as int, 0, d.z as int)
        &&& self.free_or_origin(c, 0, d.y as int, d.z as int)
        &&& self.free_or_origin(c, d.x as int, d.y as int, d.z as int)
    }

    /// How many of the first `k` openings of the maze are legal from `c`.
    pub open spec fn usable_count(&self, c: Cell, k: int) -> nat
        decreases k,
    {
        if k <= 0 {
            0
        } else {
            self.usable_count(c, k - 1) + (if self.usable(c, opening_offsets(self.spec_dim())[k - 1]) {
                1nat
            } else {
                0
            })
        }
    }

    /// How many openings are legal from `c`.
    pub open spec fn open_count(&self, c: Cell) -> nat {
        self.usable_count(c, opening_offsets(self.spec_dim()).len() as int)
    }

    /// A free cell with at most two legal moves: a dead end or a passage.
    pub open spec fn corridor(&self, c: Cell) -> bool {
        !self.wall(c) && self.open_count(c) <= 2
    }

    /// A free cell with more than two legal moves.
    pub open spec fn room(&self, c: Cell) -> bool {
        !self.wall(c) && self.open_count(c) > 2
    }

    fn free_or_origin_at(&self, c: &Cell, x: isize, y: isize, z: isize) -> (r: bool)
        requires
            self.wf(),
            small_cell(*c),
            -1 <= x <= 1,
            -1 <= y <= 1,
            -1 <= z <= 1,
        ensures
            r == self.free_or_origin(*c, x as int, y as int, z as int),
    {
        if x == 0 && y == 0 && z == 0 {
            true
        } else {
            !self.is_wall(&c.plus(&Cell::new(x, y, z)))
        }
    }

    pub(crate) fn is_usable(&self, c: &Cell, d: &Cell) -> (r: bool)
        requires
            self.wf(),
            small_cell(*c),
            -1 <= d.x <= 1,
            -1 <= d.y <= 1,
            -1 <= d.z <= 1,
        ensures
            r == self.usable(*c, *d),
    {
        self.free_or_origin_at(c, d.x, 0, 0) && self.free_or_origin_at(c, 0, d.y, 0) && self.free_or_origin_at(
            c,
            0,
            0,
            d.z,
        ) && self.free_or_origin_at(c, d.x, d.y, 0) && self.free_or_origin_at(c, d.x, 0, d.z)
            && self.free_or_origin_at(c, 0, d.y, d.z) && self.free_or_origin_at(c, d.x, d.y, d.z)
    }

    /// The number of legal moves from `c`.
    pub fn count_openings(&self, c: &Cell) -> (r: usize)
        requires
            self.wf(),
            small_cell(*c),
        ensures
            r == self.open_count(*c),
    {
        let mut count: usize = 0;
        let mut k: usize = 0;
        while k < self.openings.len()
            invariant
                self.wf(),
                small_cell(*c),
                k <= self.openings@.len(),
                count == self.usable_count(*c, k as int),
                count <= k,
            decreases self.openings@.len() - k,
        {
            let o = self.openings[k];
            assert(o.cell == opening_offsets(self.dim)[k as int]);
            if self.is_usable(c, &o.cell) {
                count = count + 1;
            }
            k = k + 1;
        }
        count
    }

    /// `c` is free and has at most two legal moves.
    pub fn is_corridor(&self, c: &Cell) -> (r: bool)
        requires
            self.wf(),
            small_cell(*c),
        ensures
            r == self.corridor(*c),
    {
        !self.is_wall(c) && self.count_openings(c) <= 2
    }

    /// `c` is free and has more than two legal moves.
    pub fn is_room(&self, c: &Cell) -> (r: bool)
        requires
            self.wf(),
            small_cell(*c),
        ensures
            r == self.room(*c),
    {
        !self.is_wall(c) && self.count_openings(c) > 2
    }

    /// A unit step away from `c` lies a wall.
    pub fn is_neighbouring_wall(&self, c: &Cell) -> (r: bool)
        requires
            self.wf(),
            near_cell(*c),
        ensures
            r == exists|k: int|
                0 <= k < neighbour_offsets(self.spec_dim()).len() && self.wall(
                    #[trigger] shift(*c, neighbour_offsets(self.spec_dim())[k]),
                ),
    {
        let mut k: usize = 0;
        while k < self.neighbours.len()
            invariant
                self.wf(),
                near_cell(*c),
                k <= self.neighbours@.len(),
                forall|j: int| 0 <= j < k ==> !self.wall(#[trigger] shift(*c, neighbour_offsets(self.dim)[j])),
            decreases self.neighbours@.len() - k,
        {
            if self.is_wall(&c.plus(&self.neighbours[k])) {
                return true;
            }
            k = k + 1;
        }
        false
    }

    /// A unit step away from `c` lies a corridor cell.
    pub fn is_neighbouring_corridor(&self, c: &Cell) -> (r: bool)
        requires
            self.wf(),
            near_cell(*c),
        ensures
            r == exists|k: int|
                0 <= k < neighbour_offsets(self.spec_dim()).len() && self.corridor(
                    #[trigger] shift(*c, neighbour_offsets(self.spec_dim())[k]),
                ),
    {
        let mut k: usize = 0;
        while k < self.neighbours.len()
            invariant
                self.wf(),
                near_cell(*c),
                k <= self.neighbours@.len(),
                forall|j: int| 0 <= j < k ==> !self.corridor(#[trigger] shift(*c, neighbour_offsets(self.dim)[j])),
            decreases self.neighbours@.len() - k,
        {
            let n = c.plus(&self.neighbours[k]);
            if self.is_corridor(&n) {
                return true;
            }
            k = k + 1;
        }
        false
    }
}

/// `after` is `before` with a border of width `k` removed from every side and the remaining
/// cells moved towards the origin.
pub open spec fn reduced_by(before: Maze, after: Maze, k: int) -> bool {
    &&& after.spec_dim() == before.spec_dim()
    &&& after.spec_size() == grown(before.spec_dim(), before.spec_size(), -k)
    &&& forall|c: Cell| #[trigger]
        after.wall(c) == (in_bounds(c, after.spec_size()) && before.wall(shift(c, diagonal(before.spec_dim(), k))))
}

/// `after` is `before` with every cell of the outer layer of the grid walled.
pub open spec fn circled(before: Maze, after: Maze) -> bool {
    &&& after.spec_dim() == before.spec_dim()
    &&& after.spec_size() == before.spec_size()
    &&& forall|c: Cell| #[trigger]
        after.wall(c) == (before.wall(c) || (in_bounds(c, before.spec_size()) && on_rim(
            before.spec_dim(),
            c,
            before.spec_size(),
        )))
}

/// `c` lies at least `k` cells away from every side of the grid along each axis of `dim`.
pub open spec fn inside_border(dim: Dim, size: Cell, k: int, c: Cell) -> bool {
    &&& k <= c.x < size.x - k
    &&& k <= c.y < size.y - k
    &&& dim == Dim::Three ==> k <= c.z < size.z - k
}

/// Extending by `k` after reducing by `k` brings the grid back to its extent, keeps every wall
/// that lay inside the border of width `k` at its place, and leaves that border free.
pub proof fn lemma_reduce_then_extend(before: Maze, reduced: Maze, after: Maze, k: int)
    requires
        before.wf(),
        k > 0,
        before.spec_size().x >= 2 * k,
        before.spec_size().y >= 2 * k,
        before.spec_dim() == Dim::Three ==> before.spec_size().z >= 2 * k,
        reduced.spec_dim() == before.spec_dim(),
        reduced.spec_size() == grown(before.spec_dim(), before.spec_size(), -k),
        forall|c: Cell| #[trigger]
            reduced.wall(c) == (in_bounds(c, reduced.spec_size()) && before.wall(shift(c, diagonal(before.spec_dim(), k)))),
        after.spec_dim() == reduced.spec_dim(),
        after.spec_size() == grown(reduced.spec_dim(), reduced.spec_size(), k),
        forall|c: Cell| #[trigger]
            after.wall(c) == (in_bounds(c, after.spec_size()) && reduced.wall(shift(c, diagonal(reduced.spec_dim(), -k)))),
    ensures
        after.spec_size() == before.spec_size(),
        forall|c: Cell| #[trigger]
            after.wall(c) == (before.wall(c) && inside_border(before.spec_dim(), before.spec_size(), k, c)),
{
    let dim = before.spec_dim();
    let size = before.spec_size();
    assert(after.spec_size() == size);
    assert forall|c: Cell| #[trigger] after.wall(c) == (before.wall(c) && inside_border(dim, size, k, c)) by {
        let back = shift(c, diagonal(dim, -k));
        if in_bounds(c, size) {
            assert(shift(back, diagonal(dim, k)) == c);
            if before.wall(c) && inside_border(dim, size, k, c) {
                assert(in_bounds(back, reduced.spec_size()));
            }
        } else {
            assert(!before.wall(c));
        }
    }
}

} // verus!
