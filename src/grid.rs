use vstd::prelude::*;

verus! {

/// Largest extent of a grid along one axis.
pub const MAX_SIDE: isize = 4096;

/// Largest number of cells of a grid.
pub const MAX_CELLS: isize = 16777216;

/// The number of axes of a maze: a flat maze has a single layer along `z`.
#[derive(Clone, Copy, Debug, PartialEq, Eq, Hash, Structural)]
pub enum Dim {
    Two,
    Three,
}

/// A grid position or an offset between two positions. In a flat maze `z` is 0.
#[derive(Clone, Copy, Debug, PartialEq, Eq, Hash, Structural)]
pub struct Cell {
    pub x: isize,
    pub y: isize,
    pub z: isize,
}

pub open spec fn cell(x: int, y: int, z: int) -> Cell {
    Cell { x: x as isize, y: y as isize, z: z as isize }
}

pub open spec fn shift(a: Cell, b: Cell) -> Cell {
    cell(a.x + b.x, a.y + b.y, a.z + b.z)
}

/// A coordinate that stays clear of overflow when a few grid extents are added to it.
pub open spec fn small(v: int) -> bool {
    -8 * MAX_SIDE <= v <= 8 * MAX_SIDE
}

/// A cell at most a few grid extents away from the grid: the cells that queries accept.
pub open spec fn near_cell(c: Cell) -> bool {
    &&& -4 * MAX_SIDE <= c.x <= 4 * MAX_SIDE
    &&& -4 * MAX_SIDE <= c.y <= 4 * MAX_SIDE
    &&& -4 * MAX_SIDE <= c.z <= 4 * MAX_SIDE
}

pub open spec fn small_cell(c: Cell) -> bool {
    small(c.x as int) && small(c.y as int) && small(c.z as int)
}

pub open spec fn in_bounds(c: Cell, size: Cell) -> bool {
    &&& 0 <= c.x < size.x
    &&& 0 <= c.y < size.y
    &&& 0 <= c.z < size.z
}

pub open spec fn volume(size: Cell) -> int {
    size.x * size.y * size.z
}

/// A size is valid for `dim` when it fits the grid limits and a flat maze has one layer.
pub open spec fn valid_size(dim: Dim, size: Cell) -> bool {
    &&& 0 <= size.x <= MAX_SIDE
    &&& 0 <= size.y <= MAX_SIDE
    &&& 0 <= size.z <= MAX_SIDE
    &&& volume(size) <= MAX_CELLS
    &&& dim == Dim::Two ==> size.z == 1
}

/// Position of a cell in the row-major layout (x slowest, z fastest).
pub open spec fn index_of(c: Cell, size: Cell) -> int {
    (c.x * size.y + c.y) * size.z + c.z
}

/// The cell stored at position `i` of the row-major layout.
pub open spec fn cell_of(i: int, size: Cell) -> Cell {
    cell((i / size.z as int) / size.y as int, (i / size.z as int) % size.y as int, i % size.z as int)
}

pub proof fn lemma_index_in_range(c: Cell, size: Cell)
    requires
        in_bounds(c, size),
    ensures
        0 <= index_of(c, size) < volume(size),
{
    let (x, y, z) = (c.x as int, c.y as int, c.z as int);
    let (sx, sy, sz) = (size.x as int, size.y as int, size.z as int);
    let a = x * sy + y;
    assert(0 <= a < sx * sy) by (nonlinear_arith)
        requires 0 <= x < sx, 0 <= y < sy, a == x * sy + y;
    assert(0 <= a * sz + z < sx * sy * sz) by (nonlinear_arith)
        requires 0 <= a < sx * sy, 0 <= z < sz;
}

pub proof fn lemma_cell_of_index(c: Cell, size: Cell)
    requires
        in_bounds(c, size),
    ensures
        cell_of(index_of(c, size), size) == c,
{
    let (x, y, z) = (c.x as int, c.y as int, c.z as int);
    let (sy, sz) = (size.y as int, size.z as int);
    let a = x * sy + y;
    let i = a * sz + z;
    vstd::arithmetic::div_mod::lemma_fundamental_div_mod_converse(i, sz, a, z);
    vstd::arithmetic::div_mod::lemma_fundamental_div_mod_converse(a, sy, x, y);
}

pub proof fn lemma_index_of_cell(i: int, size: Cell)
    requires
        0 <= i < volume(size),
        0 <= size.x,
        0 <= size.y,
        0 <= size.z,
    ensures
        in_bounds(cell_of(i, size), size),
        index_of(cell_of(i, size), size) == i,
{
    let (sx, sy, sz) = (size.x as int, size.y as int, size.z as int);
    assert(sz > 0 && sy > 0 && sx > 0) by (nonlinear_arith)
        requires 0 <= i < sx * sy * sz, 0 <= sx, 0 <= sy, 0 <= sz;
    let q = i / sz;
    let r = i % sz;
    vstd::arithmetic::div_mod::lemma_fundamental_div_mod(i, sz);
    vstd::arithmetic::div_mod::lemma_mod_bound(i, sz);
    vstd::arithmetic::div_mod::lemma_fundamental_div_mod(q, sy);
    vstd::arithmetic::div_mod::lemma_mod_bound(q, sy);
    let x = q / sy;
    let y = q % sy;
    assert(0 <= q < sx * sy) by (nonlinear_arith)
        requires i == sz * q + r, 0 <= r < sz, 0 <= i < sx * sy * sz, sz > 0;
    assert(0 <= x < sx) by (nonlinear_arith)
        requires q == sy * x + y, 0 <= y < sy, 0 <= q < sx * sy, sy > 0;
    assert((x * sy + y) * sz + r == i) by (nonlinear_arith)
        requires q == sy * x + y, i == sz * q + r;
}

pub proof fn lemma_index_injective(a: Cell, b: Cell, size: Cell)
    requires
        in_bounds(a, size),
        in_bounds(b, size),
        index_of(a, size) == index_of(b, size),
    ensures
        a == b,
{
    lemma_cell_of_index(a, size);
    lemma_cell_of_index(b, size);
}

/// The row-major layout is a bijection between the cells of the grid and `0..volume(size)`.
pub proof fn lemma_layout(size: Cell)
    requires
        0 <= size.x,
        0 <= size.y,
        0 <= size.z,
    ensures
        forall|t: int|
            0 <= t < volume(size) ==> in_bounds(#[trigger] cell_of(t, size), size) && index_of(cell_of(t, size), size)
                == t,
        forall|c: Cell|
            in_bounds(c, size) ==> 0 <= #[trigger] index_of(c, size) < volume(size) && cell_of(index_of(c, size), size)
                == c,
{
    assert forall|t: int| 0 <= t < volume(size) implies in_bounds(#[trigger] cell_of(t, size), size) && index_of(
        cell_of(t, size),
        size,
    ) == t by {
        lemma_index_of_cell(t, size);
    }
    assert forall|c: Cell| in_bounds(c, size) implies 0 <= #[trigger] index_of(c, size) < volume(size) && cell_of(
        index_of(c, size),
        size,
    ) == c by {
        lemma_index_in_range(c, size);
        lemma_cell_of_index(c, size);
    }
}

impl Cell {
    pub fn new(x: isize, y: isize, z: isize) -> (r: Cell)
        ensures
            r == (Cell { x, y, z }),
    {
        Cell { x, y, z }
    }

    pub fn plus(&self, o: &Cell) -> (r: Cell)
        requires
            small_cell(*self),
            small_cell(*o),
        ensures
            r == shift(*self, *o),
    {
        Cell { x: self.x + o.x, y: self.y + o.y, z: self.z + o.z }
    }
}

/// The position of `c` in the row-major layout of a grid of extent `size`.
pub fn index(c: &Cell, size: &Cell) -> (r: usize)
    requires
        in_bounds(*c, *size),
        volume(*size) <= MAX_CELLS,
    ensures
        r == index_of(*c, *size),
        r < volume(*size),
{
    proof {
        lemma_index_in_range(*c, *size);
        let (x, y) = (c.x as int, c.y as int);
        let (sx, sy, sz) = (size.x as int, size.y as int, size.z as int);
        assert(0 <= x * sy + y < sx * sy * sz) by (nonlinear_arith)
            requires 0 <= x < sx, 0 <= y < sy, 1 <= sz;
        assert(0 <= x * sy <= x * sy + y);
    }
    let a =c.x as usize * size.y as usize + c.y as usize;
    assert(a * size.z + c.z == index_of(*c, *size));
    (a * size.z as usize + c.z as usize)
}

/// The cell at position `i` of the row-major layout of a grid of extent `size`.
pub fn cell_at(i: usize, size: &Cell) -> (r: Cell)
    requires
        i < volume(*size),
        0 <= size.x,
        0 <= size.y,
        0 <= size.z,
        volume(*size) <= MAX_CELLS,
    ensures
        r == cell_of(i as int, *size),
        in_bounds(r, *size),
        index_of(r, *size) == i,
{
    proof {
        lemma_index_of_cell(i as int, *size);
    }
    let q = i / size.z as usize;
    Cell::new((q / size.y as usize) as isize, (q % size.y as usize) as isize, (i % size.z as usize) as isize)
}

pub fn in_grid(c: &Cell, size: &Cell) -> (r: bool)
    ensures
        r == in_bounds(*c, *size),
{
    0 <= c.x && c.x < size.x && 0 <= c.y && c.y < size.y && 0 <= c.z && c.z < size.z
}

} // verus!
