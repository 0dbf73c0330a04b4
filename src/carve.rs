use vstd::prelude::*;
use rand::rngs::StdRng;
use crate::grid::{cell, cell_at, cell_of, in_bounds, in_grid, index, index_of, lemma_layout, volume, Cell, Dim, MAX_SIDE};
use crate::maze::{cell_count, Maze};
use crate::rng::random_below;

verus! {

/// Whether `v` is within one of `center`.
pub open spec fn near(v: int, center: int) -> bool {
    center - 1 <= v <= center + 1
}

/// `c` belongs to the wall blob across `axis` anchored at junction `(2x, 2y, 2z)`: the blob is one
/// cell thick along `axis`, at coordinate `2a - 1 + bug` for the anchor's coordinate `a` on that axis,
/// and three cells wide along the other axes of `dim`.
pub open spec fn blob_member(dim: Dim, bug: Cell, axis: int, x: int, y: int, z: int, c: Cell) -> bool {
    let flat = dim == Dim::Two;
    &&& (if axis == 0 { c.x == 2 * x - 1 + bug.x } else { near(c.x as int, 2 * x) })
    &&& (if axis == 1 { c.y == 2 * y - 1 + bug.y } else { near(c.y as int, 2 * y) })
    &&& (if flat { c.z == 0 } else if axis == 2 { c.z == 2 * z - 1 + bug.z } else { near(c.z as int, 2 * z) })
}

/// `(x, y, z)` anchors a blob across `axis` in a grid of extent `size`: each anchor coordinate
/// runs over `1..=side / 2`, and the blob is left out when it would reach the far end of an
/// axis it spans.
pub open spec fn anchor(dim: Dim, size: Cell, axis: int, x: int, y: int, z: int) -> bool {
    let (hx, hy, hz) = (size.x / 2, size.y / 2, size.z / 2);
    &&& 1 <= x <= hx
    &&& 1 <= y <= hy
    &&& (if dim == Dim::Two { z == 1 && 0 <= axis <= 1 } else { 1 <= z <= hz && 0 <= axis <= 2 })
    &&& (axis != 0 ==> x != hx)
    &&& (axis != 1 ==> y != hy)
    &&& (dim == Dim::Three && axis != 2 ==> z != hz)
}

/// `c` lies in one of the wall blobs that carving may keep.
pub open spec fn in_wall_blob(dim: Dim, size: Cell, bug: Cell, c: Cell) -> bool {
    exists|axis: int, x: int, y: int, z: int|
        #[trigger] anchor(dim, size, axis, x, y, z) && blob_member(dim, bug, axis, x, y, z, c)
}

/// The cell of the blob across `axis` anchored at `(2x, 2y, 2z)` offset by `a` and `b` along the
/// axes the blob spans.
pub open spec fn blob_cell(dim: Dim, bug: Cell, axis: int, x: int, y: int, z: int, a: int, b: int) -> Cell {
    let flat = dim == Dim::Two;
    if axis == 0 {
        cell(2 * x - 1 + bug.x, 2 * y + a, if flat { 0 } else { 2 * z + b })
    } else if axis == 1 {
        cell(2 * x + a, 2 * y - 1 + bug.y, if flat { 0 } else { 2 * z + b })
    } else {
        cell(2 * x + a, 2 * y + b, 2 * z - 1 + bug.z)
    }
}

/// `z` holds three distinct cells.
#[verifier::opaque]
pub open spec fn three_cells(z: Seq<Cell>) -> bool {
    exists|a: Cell, b: Cell, c: Cell|
        #![trigger z.contains(a), z.contains(b), z.contains(c)]
        z.contains(a) && z.contains(b) && z.contains(c) && a != b && b != c && a != c
}

/// A sequence without duplicates that holds three distinct values has three elements or more.
proof fn lemma_three_values(s: Seq<usize>, a: usize, b: usize, c: usize)
    requires
        s.no_duplicates(),
        s.contains(a) && s.contains(b) && s.contains(c),
        a != b && b != c && a != c,
    ensures
        s.len() >= 3,
{
    let ia = choose|i: int| 0 <= i < s.len() && s[i] == a;
    let ib = choose|i: int| 0 <= i < s.len() && s[i] == b;
    let ic = choose|i: int| 0 <= i < s.len() && s[i] == c;
}

/// Every cell of a blob lies inside a grid whose extents are odd.
proof fn lemma_blob_in_bounds(dim: Dim, size: Cell, bug: Cell, axis: int, x: int, y: int, z: int, c: Cell)
    requires
        0 <= size.x <= MAX_SIDE && 0 <= size.y <= MAX_SIDE && 0 <= size.z <= MAX_SIDE,
        size.x % 2 == 1 && size.y % 2 == 1 && size.z % 2 == 1,
        dim == Dim::Two ==> size.z == 1,
        0 <= bug.x <= 1 && 0 <= bug.y <= 1 && 0 <= bug.z <= 1,
        anchor(dim, size, axis, x, y, z),
        blob_member(dim, bug, axis, x, y, z, c),
    ensures
        in_bounds(c, size),
{
}

/// The cells of the blob across `axis` anchored at `(2x, 2y, 2z)`.
fn blob(dim: Dim, size: &Cell, bug: &Cell, axis: isize, x: isize, y: isize, z: isize) -> (r: Vec<Cell>)
    requires
        0 <= size.x <= MAX_SIDE && 0 <= size.y <= MAX_SIDE && 0 <= size.z <= MAX_SIDE,
        size.x % 2 == 1 && size.y % 2 == 1 && size.z % 2 == 1,
        dim == Dim::Two ==> size.z == 1,
        0 <= bug.x <= 1 && 0 <= bug.y <= 1 && 0 <= bug.z <= 1,
        anchor(dim, *size, axis as int, x as int, y as int, z as int),
    ensures
        r@.len() > 0,
        three_cells(r@),
        forall|j: int|
            0 <= j < r@.len() ==> in_bounds(#[trigger] r@[j], *size) && in_wall_blob(dim, *size, *bug, r@[j]),
        forall|c: Cell|
            blob_member(dim, *bug, axis as int, x as int, y as int, z as int, c) ==> #[trigger] r@.contains(c),
{
    let mut r: Vec<Cell> = Vec::new();
    let flat = dim == Dim::Two;
    let ghost (ax, xx, yy, zz) = (axis as int, x as int, y as int, z as int);
    let mut i: isize = -1;
    while i <= 1
        invariant
            -1 <= i <= 2,
            0 <= size.x <= MAX_SIDE && 0 <= size.y <= MAX_SIDE && 0 <= size.z <= MAX_SIDE,
            size.x % 2 == 1 && size.y % 2 == 1 && size.z % 2 == 1,
            dim == Dim::Two ==> size.z == 1,
            0 <= bug.x <= 1 && 0 <= bug.y <= 1 && 0 <= bug.z <= 1,
            flat == (dim == Dim::Two),
            (ax, xx, yy, zz) == (axis as int, x as int, y as int, z as int),
            anchor(dim, *size, ax, xx, yy, zz),
            forall|j: int|
                0 <= j < r@.len() ==> in_bounds(#[trigger] r@[j], *size) && in_wall_blob(dim, *size, *bug, r@[j]),
            forall|a: int, b: int|
                -1 <= a < i && -1 <= b <= 1 && (flat ==> b == 0) ==> r@.contains(
                    #[trigger] blob_cell(dim, *bug, ax, xx, yy, zz, a, b),
                ),
        decreases 2 - i,
    {
        let mut k: isize = -1;
        while k <= 1
            invariant
                -1 <= i <= 1,
                -1 <= k <= 2,
                0 <= size.x <= MAX_SIDE && 0 <= size.y <= MAX_SIDE && 0 <= size.z <= MAX_SIDE,
                size.x % 2 == 1 && size.y % 2 == 1 && size.z % 2 == 1,
                dim == Dim::Two ==> size.z == 1,
                0 <= bug.x <= 1 && 0 <= bug.y <= 1 && 0 <= bug.z <= 1,
                flat == (dim == Dim::Two),
                (ax, xx, yy, zz) == (axis as int, x as int, y as int, z as int),
                anchor(dim, *size, ax, xx, yy, zz),
                forall|j: int|
                    0 <= j < r@.len() ==> in_bounds(#[trigger] r@[j], *size) && in_wall_blob(dim, *size, *bug, r@[j]),
                forall|a: int, b: int|
                    (-1 <= a < i && -1 <= b <= 1 || a == i && -1 <= b < k) && (flat ==> b == 0) ==> r@.contains(
                        #[trigger] blob_cell(dim, *bug, ax, xx, yy, zz, a, b),
                    ),
            decreases 2 - k,
        {
            if !flat || k == 0 {
                let c = if axis == 0 {
                    Cell::new(2 * x - 1 + bug.x, 2 * y + i, if flat { 0 } else { 2 * z + k })
                } else if axis == 1 {
                    Cell::new(2 * x + i, 2 * y - 1 + bug.y, if flat { 0 } else { 2 * z + k })
                } else {
                    Cell::new(2 * x + i, 2 * y + k, 2 * z - 1 + bug.z)
                };
                assert(c == blob_cell(dim, *bug, ax, xx, yy, zz, i as int, k as int));
                assert(blob_member(dim, *bug, ax, xx, yy, zz, c));
                proof {
                    lemma_blob_in_bounds(dim, *size, *bug, ax, xx, yy, zz, c);
                }
                if in_grid(&c, size) {
                    let ghost rb = r@;
                    r.push(c);
                    proof {
                        assert(r@[r@.len() - 1] == c);
                        assert forall|a: int, b: int|
                            (-1 <= a < i && -1 <= b <= 1 || a == i && -1 <= b < k + 1) && (flat ==> b == 0) implies r@.contains(
                                #[trigger] blob_cell(dim, *bug, ax, xx, yy, zz, a, b),
                            ) by {
                            if !(a == i && b == k) {
                                let q = choose|q: int| 0 <= q < rb.len() && rb[q] == blob_cell(dim, *bug, ax, xx, yy, zz, a, b);
                                assert(r@[q] == rb[q]);
                            }
                        }
                    }
                }
            }
            k = k + 1;
        }
        i = i + 1;
    }
    proof {
        assert forall|c: Cell| blob_member(dim, *bug, ax, xx, yy, zz, c) implies #[trigger] r@.contains(c) by {
            let flat_ = dim == Dim::Two;
            if ax == 0 {
                assert(c == blob_cell(dim, *bug, ax, xx, yy, zz, c.y - 2 * yy, if flat_ { 0 } else { c.z - 2 * zz }));
            } else if ax == 1 {
                assert(c == blob_cell(dim, *bug, ax, xx, yy, zz, c.x - 2 * xx, if flat_ { 0 } else { c.z - 2 * zz }));
            } else {
                assert(c == blob_cell(dim, *bug, ax, xx, yy, zz, c.x - 2 * xx, c.y - 2 * yy));
            }
        }
        assert(r@.contains(blob_cell(dim, *bug, ax, xx, yy, zz, 0, 0)));
        let c1 = blob_cell(dim, *bug, ax, xx, yy, zz, -1, 0);
        let c2 = blob_cell(dim, *bug, ax, xx, yy, zz, 0, 0);
        let c3 = blob_cell(dim, *bug, ax, xx, yy, zz, 1, 0);
        assert(blob_member(dim, *bug, ax, xx, yy, zz, c1));
        assert(blob_member(dim, *bug, ax, xx, yy, zz, c3));
        lemma_blob_in_bounds(dim, *size, *bug, ax, xx, yy, zz, c1);
        lemma_blob_in_bounds(dim, *size, *bug, ax, xx, yy, zz, c2);
        lemma_blob_in_bounds(dim, *size, *bug, ax, xx, yy, zz, c3);
        assert(r@.contains(c1) && r@.contains(c2) && r@.contains(c3) && c1 != c2 && c2 != c3 && c1 != c3);
        reveal(three_cells);
    }
    r
}

/// The number of candidates left once `percent` percent of `count` have been drawn: the
/// ceiling of `count * (100 - percent) / 100`.
pub open spec fn remaining(count: int, percent: int) -> int {
    (count * (100 - percent) + 99) / 100
}

/// `c` is a cell of one of `blobs`.
pub open spec fn covered(blobs: Seq<Vec<Cell>>, c: Cell) -> bool {
    exists|b: int| 0 <= b < blobs.len() && #[trigger] blobs[b]@.contains(c)
}

/// The position of the anchor `(x, y, z)` among the anchors of a grid whose half extents are `half`.
pub open spec fn anchor_index(half: Cell, x: int, y: int, z: int) -> int {
    index_of(cell(x - 1, y - 1, z - 1), half)
}

/// The requirements on the extent, shifts and dimension of a carved grid.
pub open spec fn carvable(dim: Dim, size: Cell, bug: Cell) -> bool {
    &&& crate::grid::valid_size(dim, size)
    &&& size.x % 2 == 1 && size.y % 2 == 1 && size.z % 2 == 1
    &&& 0 <= bug.x <= 1 && 0 <= bug.y <= 1 && 0 <= bug.z <= 1
}

/// Every candidate blob of the grid, one per anchor, in anchor order.
fn candidate_blobs(dim: Dim, size: &Cell, bug: &Cell) -> (blobs: Vec<Vec<Cell>>)
    requires
        carvable(dim, *size, *bug),
    ensures
        forall|b: int| 0 <= b < blobs@.len() ==> #[trigger] blobs@[b]@.len() > 0 && three_cells(blobs@[b]@),
        forall|b: int, j: int|
            0 <= b < blobs@.len() && 0 <= j < blobs@[b]@.len() ==> in_bounds(#[trigger] blobs@[b]@[j], *size)
                && in_wall_blob(dim, *size, *bug, blobs@[b]@[j]),
        forall|ax: int, x: int, y: int, z: int, c: Cell|
            #![trigger anchor(dim, *size, ax, x, y, z), blob_member(dim, *bug, ax, x, y, z, c)]
            anchor(dim, *size, ax, x, y, z) && blob_member(dim, *bug, ax, x, y, z, c) ==> covered(blobs@, c),
{
    let three = dim == Dim::Three;
    let hx = size.x / 2;
    let hy = size.y / 2;
    let hz = if three { size.z / 2 } else { 1 };
    let half = Cell::new(hx, hy, hz);
    assert(volume(half) <= volume(*size)) by (nonlinear_arith)
        requires 0 <= half.x <= size.x, 0 <= half.y <= size.y, 0 <= half.z <= size.z;
    let total = cell_count(&half);
    let axes: isize = if three { 3 } else { 2 };
    let mut blobs: Vec<Vec<Cell>> = Vec::new();
    let mut t: usize = 0;
    while t < total
        invariant
            carvable(dim, *size, *bug),
            three == (dim == Dim::Three),
            half.x == size.x / 2 && half.y == size.y / 2 && half.z == (if three { size.z / 2 } else { 1 }),
            total == volume(half),
            volume(half) <= crate::grid::MAX_CELLS,
            0 <= half.x && 0 <= half.y && 0 <= half.z,
            hx == half.x && hy == half.y && hz == half.z,
            axes == (if three { 3isize } else { 2isize }),
            t <= total,
            forall|b: int| 0 <= b < blobs@.len() ==> #[trigger] blobs@[b]@.len() > 0 && three_cells(blobs@[b]@),
            forall|b: int, j: int|
                0 <= b < blobs@.len() && 0 <= j < blobs@[b]@.len() ==> in_bounds(#[trigger] blobs@[b]@[j], *size)
                    && in_wall_blob(dim, *size, *bug, blobs@[b]@[j]),
            forall|ax: int, x: int, y: int, z: int, c: Cell|
                #![trigger anchor(dim, *size, ax, x, y, z), blob_member(dim, *bug, ax, x, y, z, c)]
                anchor(dim, *size, ax, x, y, z) && anchor_index(half, x, y, z) < t && blob_member(dim, *bug, ax, x, y, z, c)
                    ==> covered(blobs@, c),
        decreases total - t,
    {
        proof {
            lemma_layout(half);
        }
        let a = cell_at(t, &half);
        let (x, y, z) = (a.x + 1, a.y + 1, a.z + 1);
        let (x_end, y_end, z_end) = (x == hx, y == hy, three && z == hz);
        let mut axis: isize = 0;
        while axis < axes
            invariant
                carvable(dim, *size, *bug),
                three == (dim == Dim::Three),
                half.x == size.x / 2 && half.y == size.y / 2 && half.z == (if three { size.z / 2 } else { 1 }),
                total == volume(half),
                volume(half) <= crate::grid::MAX_CELLS,
                0 <= half.x && 0 <= half.y && 0 <= half.z,
                axes == (if three { 3isize } else { 2isize }),
                t < total,
                a == cell_of(t as int, half),
                in_bounds(a, half),
                index_of(a, half) == t,
                x == a.x + 1 && y == a.y + 1 && z == a.z + 1,
                x_end == (x == half.x) && y_end == (y == half.y) && z_end == (three && z == half.z),
                0 <= axis <= axes,
                forall|b: int| 0 <= b < blobs@.len() ==> #[trigger] blobs@[b]@.len() > 0 && three_cells(blobs@[b]@),
                forall|b: int, j: int|
                    0 <= b < blobs@.len() && 0 <= j < blobs@[b]@.len() ==> in_bounds(#[trigger] blobs@[b]@[j], *size)
                        && in_wall_blob(dim, *size, *bug, blobs@[b]@[j]),
                forall|ax: int, xx: int, yy: int, zz: int, c: Cell|
                    #![trigger anchor(dim, *size, ax, xx, yy, zz), blob_member(dim, *bug, ax, xx, yy, zz, c)]
                    anchor(dim, *size, ax, xx, yy, zz) && (anchor_index(half, xx, yy, zz) < t || anchor_index(half, xx, yy, zz)
                        == t && ax < axis) && blob_member(dim, *bug, ax, xx, yy, zz, c) ==> covered(blobs@, c),
            decreases axes - axis,
        {
            proof {
                lemma_layout(half);
            }
            let spans_end = (axis != 0 && x_end) || (axis != 1 && y_end) || (axis != 2 && z_end);
            let ghost before = blobs@;
            if !spans_end {
                let b = blob(dim, size, bug, axis, x, y, z);
                blobs.push(b);
                proof {
                    assert forall|bb: int| 0 <= bb < blobs@.len() implies #[trigger] blobs@[bb]@.len() > 0 && three_cells(blobs@[bb]@) by {
                        if bb < before.len() {
                            assert(blobs@[bb] == before[bb]);
                        }
                    }
                    assert forall|bb: int, j: int|
                        0 <= bb < blobs@.len() && 0 <= j < blobs@[bb]@.len() implies in_bounds(#[trigger] blobs@[bb]@[j], *size)
                            && in_wall_blob(dim, *size, *bug, blobs@[bb]@[j]) by {
                        if bb < before.len() {
                            assert(blobs@[bb] == before[bb]);
                        }
                    }
                }
            }
            proof {
                assert forall|ax: int, xx: int, yy: int, zz: int, c: Cell|
                    #![trigger anchor(dim, *size, ax, xx, yy, zz), blob_member(dim, *bug, ax, xx, yy, zz, c)]
                    anchor(dim, *size, ax, xx, yy, zz) && (anchor_index(half, xx, yy, zz) < t || anchor_index(half, xx, yy, zz)
                        == t && ax < axis + 1) && blob_member(dim, *bug, ax, xx, yy, zz, c) implies covered(blobs@, c) by {
                    if anchor_index(half, xx, yy, zz) < t || ax < axis {
                        let bb = choose|bb: int| 0 <= bb < before.len() && #[trigger] before[bb]@.contains(c);
                        assert(blobs@[bb] == before[bb]);
                    } else {
                        let an = cell(xx - 1, yy - 1, zz - 1);
                        assert(in_bounds(an, half));
                        assert(cell_of(index_of(an, half), half) == an);
                        assert(an == a);
                        assert(!spans_end);
                        let last = blobs@.len() - 1;
                        assert(blobs@[last]@.contains(c));
                    }
                }
            }
            axis = axis + 1;
        }
        t = t + 1;
    }
    proof {
        lemma_layout(half);
        assert forall|ax: int, x: int, y: int, z: int, c: Cell|
            #![trigger anchor(dim, *size, ax, x, y, z), blob_member(dim, *bug, ax, x, y, z, c)]
            anchor(dim, *size, ax, x, y, z) && blob_member(dim, *bug, ax, x, y, z, c) implies covered(blobs@, c) by {
            assert(in_bounds(cell(x - 1, y - 1, z - 1), half));
        }
    }
    blobs
}

/// What the carving loop leaves: with no draw every blob is walled, and some wall stands
/// whenever there is a candidate.
proof fn lemma_kruskal_walls(
    dim: Dim,
    size: Cell,
    bug: Cell,
    percent: int,
    all: Seq<Vec<Cell>>,
    left: Seq<Vec<Cell>>,
    kept_any: bool,
    wit: int,
    drawn_flags: Seq<bool>,
    flags: Seq<bool>,
    maze: Maze,
)
    requires
        crate::grid::valid_size(dim, size),
        0 <= bug.x <= 1 && 0 <= bug.y <= 1 && 0 <= bug.z <= 1,
        forall|ax: int, x: int, y: int, z: int, c: Cell|
            #![trigger anchor(dim, size, ax, x, y, z), blob_member(dim, bug, ax, x, y, z, c)]
            anchor(dim, size, ax, x, y, z) && blob_member(dim, bug, ax, x, y, z, c) ==> covered(all, c),
        percent == 0 ==> left == all,
        left.len() < all.len() ==> kept_any,
        kept_any ==> 0 <= wit < volume(size) && drawn_flags[wit],
        forall|b: int| 0 <= b < left.len() ==> #[trigger] left[b]@.len() > 0 && three_cells(left[b]@),
        forall|b: int, j: int| 0 <= b < left.len() && 0 <= j < left[b]@.len() ==> in_bounds(#[trigger] left[b]@[j], size),
        forall|u: int| 0 <= u < volume(size) && #[trigger] drawn_flags[u] ==> flags[u],
        forall|c: Cell|
            in_bounds(c, size) && (exists|bb: int| 0 <= bb < left.len() && #[trigger] left[bb]@.contains(c)) ==> flags[index_of(c, size)],
        forall|c: Cell| in_bounds(c, size) && flags[index_of(c, size)] ==> #[trigger] maze.wall(c),
    ensures
        percent == 0 ==> forall|c: Cell| in_bounds(c, size) && in_wall_blob(dim, size, bug, c) ==> #[trigger] maze.wall(c),
        (exists|ax: int, x: int, y: int, z: int| #[trigger] anchor(dim, size, ax, x, y, z)) ==> exists|c: Cell|
            #[trigger] maze.wall(c),
{
    lemma_layout(size);
    if percent == 0 {
        assert forall|c: Cell| in_bounds(c, size) && in_wall_blob(dim, size, bug, c) implies #[trigger] maze.wall(c) by {
            let (ax, x, y, z) = choose|ax: int, x: int, y: int, z: int|
                #[trigger] anchor(dim, size, ax, x, y, z) && blob_member(dim, bug, ax, x, y, z, c);
            assert(covered(all, c));
            let bb = choose|bb: int| 0 <= bb < all.len() && #[trigger] all[bb]@.contains(c);
            assert(left[bb]@.contains(c));
        }
    }
    if exists|ax: int, x: int, y: int, z: int| #[trigger] anchor(dim, size, ax, x, y, z) {
        let (ax, x, y, z) = choose|ax: int, x: int, y: int, z: int| #[trigger] anchor(dim, size, ax, x, y, z);
        let c0 = blob_cell(dim, bug, ax, x, y, z, 0, 0);
        assert(blob_member(dim, bug, ax, x, y, z, c0));
        assert(covered(all, c0));
        if left.len() >= 1 {
            assert(left[0]@.len() > 0);
            let c = left[0]@[0];
            assert(left[0]@.contains(c));
            assert(in_bounds(c, size));
            assert(maze.wall(c));
        } else {
            assert(drawn_flags[wit]);
            let c = cell_of(wit, size);
            assert(index_of(c, size) == wit);
            assert(maze.wall(c));
        }
    }
}

impl Maze {
    /// Draws one candidate blob at random, removes it from `blobs`, and keeps its cells as walls
    /// when they touch three groups or more, merging those groups. Returns a wall flag that is set:
    /// the first draw always keeps its blob.
    #[verifier::rlimit(100)]
    fn draw_once(
        dim: Dim,
        size: &Cell,
        bug: &Cell,
        blobs: &mut Vec<Vec<Cell>>,
        group: &mut Vec<usize>,
        wall: &mut Vec<bool>,
        rng: &mut StdRng,
        Ghost(kept_any): Ghost<bool>,
        Ghost(wit): Ghost<int>,
    ) -> (r: Ghost<(bool, int)>)
        requires
            crate::grid::valid_size(dim, *size),
            old(group)@.len() == volume(*size),
            old(wall)@.len() == volume(*size),
            old(blobs)@.len() > 0,
            !kept_any ==> forall|u: int| 0 <= u < volume(*size) ==> #[trigger] old(group)@[u] == u,
            kept_any ==> 0 <= wit < volume(*size) && old(wall)@[wit],
            forall|u: int| 0 <= u < volume(*size) && #[trigger] old(wall)@[u] ==> in_wall_blob(dim, *size, *bug, cell_of(u, *size)),
            forall|b: int| 0 <= b < old(blobs)@.len() ==> #[trigger] old(blobs)@[b]@.len() > 0 && three_cells(old(blobs)@[b]@),
            forall|b: int, j: int|
                0 <= b < old(blobs)@.len() && 0 <= j < old(blobs)@[b]@.len() ==> in_bounds(#[trigger] old(blobs)@[b]@[j], *size)
                    && in_wall_blob(dim, *size, *bug, old(blobs)@[b]@[j]),
        ensures
            final(blobs)@.len() == old(blobs)@.len() - 1,
            final(group)@.len() == volume(*size),
            final(wall)@.len() == volume(*size),
            r@.0,
            0 <= r@.1 < volume(*size) && final(wall)@[r@.1],
            forall|u: int| 0 <= u < volume(*size) && #[trigger] final(wall)@[u] ==> in_wall_blob(dim, *size, *bug, cell_of(u, *size)),
            forall|b: int| 0 <= b < final(blobs)@.len() ==> #[trigger] final(blobs)@[b]@.len() > 0 && three_cells(final(blobs)@[b]@),
            forall|b: int, j: int|
                0 <= b < final(blobs)@.len() && 0 <= j < final(blobs)@[b]@.len() ==> in_bounds(#[trigger] final(blobs)@[b]@[j], *size)
                    && in_wall_blob(dim, *size, *bug, final(blobs)@[b]@[j]),
    {
        let n = cell_count(size);
        let size = *size;
        let bug = *bug;
        let ghost mut out_wit = wit;
        proof {
            lemma_layout(size);
        }
        let i = random_below(rng, blobs.len());
        let ghost before = blobs@;
        let candidate = blobs.swap_remove(i);
        proof {
            assert(candidate == before[i as int]);
            assert forall|b: int| 0 <= b < blobs@.len() implies #[trigger] blobs@[b]@.len() > 0 && three_cells(blobs@[b]@) by {
                if b == i {
                    assert(blobs@[b] == before[before.len() - 1]);
                    assert(before[before.len() - 1]@.len() > 0);
                } else {
                    assert(blobs@[b] == before[b]);
                    assert(before[b]@.len() > 0);
                }
            }
            assert(before[i as int]@.len() > 0);
            assert(three_cells(candidate@));
            lemma_layout(size);
            assert(in_bounds(candidate@[0], size));
            assert forall|b: int, j: int|
                0 <= b < blobs@.len() && 0 <= j < blobs@[b]@.len() implies in_bounds(#[trigger] blobs@[b]@[j], size)
                    && in_wall_blob(dim, size, bug, blobs@[b]@[j]) by {
                if b == i {
                    assert(blobs@[b] == before[before.len() - 1]);
                } else {
                    assert(blobs@[b] == before[b]);
                }
            }
        }
        let mut groups: Vec<usize> = Vec::new();
        let mut p: usize = 0;
        while p < candidate.len()
            invariant
                n == volume(size),
                crate::grid::valid_size(dim, size),
                group@.len() == n,
                forall|j: int| 0 <= j < candidate@.len() ==> in_bounds(#[trigger] candidate@[j], size),
                p <= candidate@.len(),
                groups@.no_duplicates(),
                forall|j: int| 0 <= j < p ==> groups@.contains(group@[index_of(#[trigger] candidate@[j], size)]),
            decreases candidate@.len() - p,
        {
            let g = group[index(&candidate[p], &size)];
            let mut seen = false;
            let mut q: usize = 0;
            while q < groups.len()
                invariant
                    q <= groups@.len(),
                    seen == exists|r: int| 0 <= r < q && groups@[r] == g,
                decreases groups@.len() - q,
            {
                if groups[q] == g {
                    seen = true;
                }
                q = q + 1;
            }
            let ghost gb = groups@;
            if !seen {
                groups.push(g);
                proof {
                    assert(groups@[groups@.len() - 1] == g);
                }
            }
            proof {
                assert forall|j: int| 0 <= j < p + 1 implies groups@.contains(group@[index_of(#[trigger] candidate@[j], size)]) by {
                    if j < p {
                        let r = choose|r: int| 0 <= r < gb.len() && gb[r] == group@[index_of(candidate@[j], size)];
                        assert(groups@[r] == gb[r]);
                    } else if seen {
                        let r = choose|r: int| 0 <= r < q && groups@[r] == g;
                    }
                }
            }
            p = p + 1;
        }
        proof {
            if !kept_any {
                lemma_layout(size);
                reveal(three_cells);
                assert(three_cells(candidate@));
                let (c1, c2, c3) = choose|a: Cell, b: Cell, c: Cell|
                    #![trigger candidate@.contains(a), candidate@.contains(b), candidate@.contains(c)]
                    candidate@.contains(a) && candidate@.contains(b) && candidate@.contains(c) && a != b && b != c && a != c;
                let j1 = choose|j: int| 0 <= j < candidate@.len() && candidate@[j] == c1;
                let j2 = choose|j: int| 0 <= j < candidate@.len() && candidate@[j] == c2;
                let j3 = choose|j: int| 0 <= j < candidate@.len() && candidate@[j] == c3;
                assert(groups@.contains(group@[index_of(candidate@[j1], size)]));
                assert(groups@.contains(group@[index_of(candidate@[j2], size)]));
                assert(groups@.contains(group@[index_of(candidate@[j3], size)]));
                assert(group@[index_of(c1, size)] == index_of(c1, size));
                assert(group@[index_of(c2, size)] == index_of(c2, size));
                assert(group@[index_of(c3, size)] == index_of(c3, size));
                lemma_three_values(groups@, index_of(c1, size) as usize, index_of(c2, size) as usize, index_of(c3, size) as usize);
            }
        }
        if groups.len() > 2 {
            let one = groups[0];
            let mut p: usize = 0;
            while p < candidate.len()
                invariant
                    n == volume(size),
                    crate::grid::valid_size(dim, size),
                    wall@.len() == n,
                    forall|j: int| 0 <= j < candidate@.len() ==> in_bounds(#[trigger] candidate@[j], size)
                        && in_wall_blob(dim, size, bug, candidate@[j]),
                    forall|u: int| 0 <= u < n && #[trigger] wall@[u] ==> in_wall_blob(dim, size, bug, cell_of(u, size)),
                    kept_any ==> 0 <= wit < n && wall@[wit],
                    candidate@.len() > 0,
                    p > 0 ==> wall@[index_of(candidate@[0], size)],
                    0 <= index_of(candidate@[0], size) < n,
                decreases candidate@.len() - p,
            {
                proof {
                    lemma_layout(size);
                }
                let u = index(&candidate[p], &size);
                wall.set(u, true);
                proof {
                    assert(cell_of(u as int, size) == candidate@[p as int]);
                }
                p = p + 1;
            }
            proof {
                out_wit = index_of(candidate@[0], size);
            }
            let mut u: usize = 0;
            while u < n
                invariant
                    group@.len() == n,
                    u <= n,
                decreases n - u,
            {
                let mut member = false;
                let mut q: usize = 0;
                while q < groups.len()
                    invariant
                        group@.len() == n,
                        u < n,
                    decreases groups@.len() - q,
                {
                    if groups[q] == group[u] {
                        member = true;
                    }
                    q = q + 1;
                }
                if member {
                    group.set(u, one);
                }
                u = u + 1;
            }
        }
        Ghost((true, out_wit))
    }

    /// Sets the wall flag of every cell of every blob of `blobs`.
    #[verifier::rlimit(100)]
    fn mark_blobs(dim: Dim, size: &Cell, bug: &Cell, blobs: &Vec<Vec<Cell>>, wall: &mut Vec<bool>)
        requires
            crate::grid::valid_size(dim, *size),
            old(wall)@.len() == volume(*size),
            forall|u: int| 0 <= u < volume(*size) && #[trigger] old(wall)@[u] ==> in_wall_blob(dim, *size, *bug, cell_of(u, *size)),
            forall|bb: int, j: int|
                0 <= bb < blobs@.len() && 0 <= j < blobs@[bb]@.len() ==> in_bounds(#[trigger] blobs@[bb]@[j], *size)
                    && in_wall_blob(dim, *size, *bug, blobs@[bb]@[j]),
        ensures
            final(wall)@.len() == volume(*size),
            forall|u: int| 0 <= u < volume(*size) && #[trigger] final(wall)@[u] ==> in_wall_blob(dim, *size, *bug, cell_of(u, *size)),
            forall|u: int| 0 <= u < volume(*size) && #[trigger] old(wall)@[u] ==> final(wall)@[u],
            forall|c: Cell|
                in_bounds(c, *size) && (exists|bb: int| 0 <= bb < blobs@.len() && #[trigger] blobs@[bb]@.contains(c)) ==> final(wall)@[index_of(
                    c,
                    *size,
                )],
    {
        let size = *size;
        let bug = *bug;
        let n = cell_count(&size);
        let ghost start = wall@;
        let mut b: usize = 0;
        while b < blobs.len()
            invariant
                forall|u: int| 0 <= u < n && #[trigger] start[u] ==> wall@[u],
                n == volume(size),
                crate::grid::valid_size(dim, size),
                wall@.len() == n,
                b <= blobs@.len(),
                forall|u: int| 0 <= u < n && #[trigger] wall@[u] ==> in_wall_blob(dim, size, bug, cell_of(u, size)),
                forall|bb: int, j: int|
                    0 <= bb < blobs@.len() && 0 <= j < blobs@[bb]@.len() ==> in_bounds(#[trigger] blobs@[bb]@[j], size)
                        && in_wall_blob(dim, size, bug, blobs@[bb]@[j]),
                forall|c: Cell|
                    in_bounds(c, size) && (exists|bb: int| 0 <= bb < b && #[trigger] blobs@[bb]@.contains(c)) ==> wall@[index_of(
                        c,
                        size,
                    )],
            decreases blobs@.len() - b,
        {
            let blob = &blobs[b];
            let mut j: usize = 0;
            while j < blob.len()
                invariant
                    forall|u: int| 0 <= u < n && #[trigger] start[u] ==> wall@[u],
                    n == volume(size),
                    crate::grid::valid_size(dim, size),
                    wall@.len() == n,
                    b < blobs@.len(),
                    blob@ == blobs@[b as int]@,
                    j <= blob@.len(),
                    forall|u: int| 0 <= u < n && #[trigger] wall@[u] ==> in_wall_blob(dim, size, bug, cell_of(u, size)),
                    forall|bb: int, jj: int|
                        0 <= bb < blobs@.len() && 0 <= jj < blobs@[bb]@.len() ==> in_bounds(#[trigger] blobs@[bb]@[jj], size)
                            && in_wall_blob(dim, size, bug, blobs@[bb]@[jj]),
                    forall|c: Cell|
                        in_bounds(c, size) && (exists|bb: int| 0 <= bb < b && #[trigger] blobs@[bb]@.contains(c)) ==> wall@[index_of(
                            c,
                            size,
                        )],
                    forall|jj: int| 0 <= jj < j ==> wall@[index_of(#[trigger] blob@[jj], size)],
                decreases blob@.len() - j,
            {
                proof {
                    lemma_layout(size);
                }
                assert(in_bounds(blobs@[b as int]@[j as int], size));
                let u = index(&blob[j], &size);
                let ghost wb = wall@;
                wall.set(u, true);
                proof {
                    assert(cell_of(u as int, size) == blob@[j as int]);
                    assert forall|c: Cell|
                        in_bounds(c, size) && (exists|bb: int| 0 <= bb < b && #[trigger] blobs@[bb]@.contains(c)) implies wall@[index_of(
                            c,
                            size,
                        )] by {
                        assert(wb[index_of(c, size)]);
                    }
                    assert forall|jj: int| 0 <= jj < j + 1 implies wall@[index_of(#[trigger] blob@[jj], size)] by {
                        if jj < j {
                            assert(wb[index_of(blob@[jj], size)]);
                        }
                    }
                }
                j = j + 1;
            }
            proof {
                assert forall|c: Cell|
                    in_bounds(c, size) && (exists|bb: int| 0 <= bb < b + 1 && #[trigger] blobs@[bb]@.contains(c)) implies wall@[index_of(
                        c,
                        size,
                    )] by {
                    let bb = choose|bb: int| 0 <= bb < b + 1 && #[trigger] blobs@[bb]@.contains(c);
                    if bb == b {
                        let jj = choose|jj: int| 0 <= jj < blob@.len() && blob@[jj] == c;
                        assert(wall@[index_of(blob@[jj], size)]);
                    } else {
                        assert(exists|b2: int| 0 <= b2 < b && #[trigger] blobs@[b2]@.contains(c));
                    }
                }
            }
            b = b + 1;
        }
    }

    /// The maze of extent `size` whose walls are the cells with a set flag.
    fn maze_of_flags(dim: Dim, size: &Cell, bug: &Cell, wall: &Vec<bool>) -> (maze: Maze)
        requires
            crate::grid::valid_size(dim, *size),
            wall@.len() == volume(*size),
            forall|u: int| 0 <= u < volume(*size) && #[trigger] wall@[u] ==> in_wall_blob(dim, *size, *bug, cell_of(u, *size)),
        ensures
            maze.wf(),
            maze.spec_dim() == dim,
            maze.spec_size() == *size,
            forall|c: Cell| #[trigger] maze.wall(c) ==> in_wall_blob(dim, *size, *bug, c),
            forall|c: Cell| in_bounds(c, *size) && wall@[index_of(c, *size)] ==> #[trigger] maze.wall(c),
    {
        let size = *size;
        let bug = *bug;
        let n = cell_count(&size);
        let mut maze = Maze::new_rectangle(dim, size);
        let mut u: usize = 0;
        while u < n
            invariant
                n == volume(size),
                wall@.len() == n,
                maze.wf(),
                maze.dim == dim,
                maze.size == size,
                u <= n,
                forall|v: int| 0 <= v < n && #[trigger] wall@[v] ==> in_wall_blob(dim, size, bug, cell_of(v, size)),
                forall|c: Cell| #[trigger] maze.wall(c) ==> in_wall_blob(dim, size, bug, c),
                forall|c: Cell|
                    in_bounds(c, size) && index_of(c, size) < u && wall@[index_of(c, size)] ==> #[trigger] maze.wall(c),
            decreases n - u,
        {
            proof {
                lemma_layout(size);
            }
            if wall[u] {
                let c = cell_at(u, &size);
                maze.set_wall(&c);
            }
            u = u + 1;
        }
        proof {
            lemma_layout(size);
        }
        maze
    }

    /// Carves a maze of extent `size` by a partial reverse randomized Kruskal. Candidate wall
    /// blobs, one across each gap between neighbouring junction cells, start as walls. They are
    /// drawn at random until `remaining(count, percent)` of the `count` candidates are left; a drawn
    /// blob stays a wall when its cells touch three groups of cells or more, which it then merges,
    /// and is carved away otherwise. The walls are the cells of the blobs kept or not drawn. `bug`
    /// shifts the wall lattice by one along each axis where it is 1.
    #[verifier::rlimit(100)]
    #[verifier::spinoff_prover]
    pub fn new_kruskal(dim: Dim, size: Cell, percent: u64, bug: Cell, rng: &mut StdRng) -> (r: Maze)
        requires
            crate::grid::valid_size(dim, size),
            size.x % 2 == 1,
            size.y % 2 == 1,
            size.z % 2 == 1,
            percent <= 100,
            0 <= bug.x <= 1 && 0 <= bug.y <= 1 && 0 <= bug.z <= 1,
        ensures
            r.wf(),
            r.spec_dim() == dim,
            r.spec_size() == size,
            forall|c: Cell| #[trigger] r.wall(c) ==> in_wall_blob(dim, size, bug, c),
            percent == 0 ==> forall|c: Cell| in_bounds(c, size) && in_wall_blob(dim, size, bug, c) ==> #[trigger] r.wall(c),
            (exists|ax: int, x: int, y: int, z: int| #[trigger] anchor(dim, size, ax, x, y, z)) ==> exists|c: Cell|
                #[trigger] r.wall(c),
    {
        let n = cell_count(&size);
        let mut group: Vec<usize> = Vec::new();
        let mut wall: Vec<bool> = Vec::new();
        let mut t: usize = 0;
        while t < n
            invariant
                t <= n,
                group@.len() == t,
                wall@.len() == t,
                forall|u: int| 0 <= u < t ==> !#[trigger] wall@[u],
                forall|u: int| 0 <= u < t ==> #[trigger] group@[u] == u,
            decreases n - t,
        {
            group.push(t);
            wall.push(false);
            t = t + 1;
        }
        let mut blobs = candidate_blobs(dim, &size, &bug);
        let ghost all = blobs@;
        let count = blobs.len();
        assert(count as int * (100 - percent as int) <= count as int * 100) by (nonlinear_arith)
            requires percent <= 100;
        let stop = ((count as u128 * (100 - percent) as u128 + 99) / 100) as usize;
        assert(stop <= count);
        assert(stop == remaining(count as int, percent as int));
        let ghost mut kept_any = false;
        let ghost mut wit: int = 0;
        while blobs.len() > stop
            invariant
                !kept_any ==> forall|u: int| 0 <= u < n ==> #[trigger] group@[u] == u,
                kept_any ==> 0 <= wit < n && wall@[wit],
                blobs@.len() < count ==> kept_any,
                blobs@.len() <= count,
                n == volume(size),
                crate::grid::valid_size(dim, size),
                group@.len() == n,
                wall@.len() == n,
                stop <= count,
                all.len() == count,
                stop <= blobs@.len(),
                percent == 0 ==> stop == count && blobs@ == all,
                forall|u: int| 0 <= u < n && #[trigger] wall@[u] ==> in_wall_blob(dim, size, bug, cell_of(u, size)),
                forall|b: int| 0 <= b < blobs@.len() ==> #[trigger] blobs@[b]@.len() > 0 && three_cells(blobs@[b]@),
                forall|b: int, j: int|
                    0 <= b < blobs@.len() && 0 <= j < blobs@[b]@.len() ==> in_bounds(#[trigger] blobs@[b]@[j], size)
                        && in_wall_blob(dim, size, bug, blobs@[b]@[j]),
            decreases blobs@.len(),
        {
            let drawn = Self::draw_once(dim, &size, &bug, &mut blobs, &mut group, &mut wall, rng, Ghost(kept_any), Ghost(wit));
            proof {
                kept_any = drawn@.0;
                wit = drawn@.1;
            }
        }
        let ghost flags_before = wall@;
        Self::mark_blobs(dim, &size, &bug, &blobs, &mut wall);
        let maze = Self::maze_of_flags(dim, &size, &bug, &wall);
        proof {
            lemma_kruskal_walls(dim, size, bug, percent as int, all, blobs@, kept_any, wit, flags_before, wall@, maze);
        }
        maze
    }
}

/// With an unshifted lattice no wall blob covers a junction cell, one whose coordinates along
/// the axes of the maze are all even: carving never walls a junction.
pub proof fn lemma_junctions_stay_free(dim: Dim, size: Cell, c: Cell)
    requires
        c.x % 2 == 0,
        c.y % 2 == 0,
        dim == Dim::Three ==> c.z % 2 == 0,
    ensures
        !in_wall_blob(dim, size, Cell { x: 0, y: 0, z: 0 }, c),
{
    let bug = Cell { x: 0, y: 0, z: 0 };
    assert forall|axis: int, x: int, y: int, z: int|
        #[trigger] anchor(dim, size, axis, x, y, z) implies !blob_member(dim, bug, axis, x, y, z, c) by {
        if blob_member(dim, bug, axis, x, y, z, c) {
            if axis == 0 {
                assert(c.x == 2 * x - 1);
            } else if axis == 1 {
                assert(c.y == 2 * y - 1);
            } else {
                assert(c.z == 2 * z - 1);
            }
        }
    }
}

} // verus!
