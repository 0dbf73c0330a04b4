use vstd::prelude::*;
use rand::rngs::StdRng;
use crate::grid::{cell_at, cell_of, in_bounds, lemma_layout, near_cell, volume, Cell, Dim, MAX_SIDE};
use crate::maze::{cell_count, Maze};
use crate::rng::random_below;

verus! {

/// `lo` and `hi` bound the square of the given radius around `center` along one axis,
/// clipped to `0..side`.
pub open spec fn clip_lo(center: int, radius: int) -> int {
    if center - radius > 0 { center - radius } else { 0 }
}

pub open spec fn clip_hi(center: int, radius: int, side: int) -> int {
    if center + radius < side - 1 { center + radius } else { side - 1 }
}

/// `v` lies in `[lo, hi]` and on one of its ends.
pub open spec fn on_edge(v: int, lo: int, hi: int) -> bool {
    lo <= v <= hi && (v == lo || v == hi)
}

pub open spec fn in_span(v: int, lo: int, hi: int) -> bool {
    lo <= v <= hi
}

impl Maze {
    /// `c` lies on a face of the square (cube) of the given radius around `center`, clipped to the grid.
    pub open spec fn on_square(&self, center: Cell, radius: int, c: Cell) -> bool {
        let (xl, xh) = (clip_lo(center.x as int, radius), clip_hi(center.x as int, radius, self.spec_size().x as int));
        let (yl, yh) = (clip_lo(center.y as int, radius), clip_hi(center.y as int, radius, self.spec_size().y as int));
        let (zl, zh) = (clip_lo(center.z as int, radius), clip_hi(center.z as int, radius, self.spec_size().z as int));
        if self.spec_dim() == Dim::Two {
            &&& c.z == 0
            &&& in_span(c.x as int, xl, xh)
            &&& in_span(c.y as int, yl, yh)
            &&& (on_edge(c.x as int, xl, xh) || on_edge(c.y as int, yl, yh))
        } else {
            &&& in_span(c.x as int, xl, xh)
            &&& in_span(c.y as int, yl, yh)
            &&& in_span(c.z as int, zl, zh)
            &&& (on_edge(c.x as int, xl, xh) || on_edge(c.y as int, yl, yh) || on_edge(c.z as int, zl, zh))
        }
    }

    fn on_square_exec(&self, center: &Cell, radius: isize, c: &Cell) -> (r: bool)
        requires
            self.wf(),
            in_bounds(*c, self.spec_size()),
            near_cell(*center),
            0 <= radius <= 2 * MAX_SIDE,
        ensures
            r == self.on_square(*center, radius as int, *c),
    {
        let xl = if center.x - radius > 0 { center.x - radius } else { 0 };
        let yl = if center.y - radius > 0 { center.y - radius } else { 0 };
        let zl = if center.z - radius > 0 { center.z - radius } else { 0 };
        let xh = if center.x + radius < self.size.x - 1 { center.x + radius } else { self.size.x - 1 };
        let yh = if center.y + radius < self.size.y - 1 { center.y + radius } else { self.size.y - 1 };
        let zh = if center.z + radius < self.size.z - 1 { center.z + radius } else { self.size.z - 1 };
        let in_x = xl <= c.x && c.x <= xh;
        let in_y = yl <= c.y && c.y <= yh;
        let in_z = zl <= c.z && c.z <= zh;
        let edge_x = in_x && (c.x == xl || c.x == xh);
        let edge_y = in_y && (c.y == yl || c.y == yh);
        let edge_z = in_z && (c.z == zl || c.z == zh);
        if self.dim == Dim::Two {
            c.z == 0 && in_x && in_y && (edge_x || edge_y)
        } else {
            in_x && in_y && in_z && (edge_x || edge_y || edge_z)
        }
    }

    /// The free cells on the faces of the square (cube) of the given radius around `center`,
    /// clipped to the grid, each once.
    pub fn free_in_square(&self, center: Cell, radius: isize) -> (r: Vec<Cell>)
        requires
            self.wf(),
            near_cell(center),
            0 <= radius <= 2 * MAX_SIDE,
        ensures
            r@.no_duplicates(),
            forall|c: Cell|
                #[trigger] r@.contains(c) <==> in_bounds(c, self.spec_size()) && !self.wall(c) && self.on_square(
                    center,
                    radius as int,
                    c,
                ),
    {
        let n = cell_count(&self.size);
        let mut r: Vec<Cell> = Vec::new();
        let mut t: usize = 0;
        while t < n
            invariant
                self.wf(),
                n == volume(self.size),
                t <= n,
                near_cell(center),
                0 <= radius <= 2 * MAX_SIDE,
                r@.no_duplicates(),
                forall|j: int| 0 <= j < r@.len() ==> exists|u: int| 0 <= u < t && #[trigger] r@[j] == cell_of(u, self.size),
                forall|c: Cell|
                    #[trigger] r@.contains(c) <==> (exists|u: int| 0 <= u < t && cell_of(u, self.size) == c) && in_bounds(c, self.size)
                        && !self.wall(c) && self.on_square(center, radius as int, c),
            decreases n - t,
        {
            proof {
                lemma_layout(self.size);
            }
            let c = cell_at(t, &self.size);
            let ghost rb = r@;
            if !self.is_wall(&c) && self.on_square_exec(&center, radius, &c) {
                r.push(c);
            }
            proof {
                assert forall|x: Cell|
                    #[trigger] r@.contains(x) <==> (exists|u: int| 0 <= u < t + 1 && cell_of(u, self.size) == x) && in_bounds(x, self.size)
                        && !self.wall(x) && self.on_square(center, radius as int, x) by {
                    if r@.contains(x) && x != c {
                        let j = choose|j: int| 0 <= j < r@.len() && r@[j] == x;
                        assert(rb[j] == x);
                        assert(rb.contains(x));
                    }
                    if x == c && r@.len() > rb.len() {
                        assert(r@[r@.len() - 1] == c);
                    }
                    if (exists|u: int| 0 <= u < t && cell_of(u, self.size) == x) && in_bounds(x, self.size) && !self.wall(x)
                        && self.on_square(center, radius as int, x) {
                        assert(rb.contains(x));
                        let j = choose|j: int| 0 <= j < rb.len() && rb[j] == x;
                        assert(r@[j] == x);
                    }
                }
                assert forall|j: int| 0 <= j < r@.len() implies exists|u: int| 0 <= u < t + 1 && #[trigger] r@[j] == cell_of(u, self.size) by {
                    if j < rb.len() {
                        assert(r@[j] == rb[j]);
                    }
                }
                if r@.len() > rb.len() {
                    assert forall|j: int| 0 <= j < rb.len() implies rb[j] != c by {
                        let u = choose|u: int| 0 <= u < t && #[trigger] rb[j] == cell_of(u, self.size);
                    }
                }
            }
            t = t + 1;
        }
        proof {
            lemma_layout(self.size);
            assert forall|c: Cell| #[trigger] r@.contains(c) <==> in_bounds(c, self.size) && !self.wall(c) && self.on_square(center, radius as int, c) by {
                if in_bounds(c, self.size) {
                    assert(cell_of(crate::grid::index_of(c, self.size), self.size) == c);
                }
            }
        }
        r
    }

    /// The free cells of the grid, in layout order.
    pub fn free_cells_list(&self) -> (r: Vec<Cell>)
        requires
            self.wf(),
        ensures
            forall|c: Cell| #[trigger] r@.contains(c) <==> in_bounds(c, self.spec_size()) && !self.wall(c),
    {
        let n = cell_count(&self.size);
        let mut r: Vec<Cell> = Vec::new();
        let mut t: usize = 0;
        while t < n
            invariant
                self.wf(),
                n == volume(self.size),
                t <= n,
                forall|c: Cell|
                    #[trigger] r@.contains(c) <==> (exists|u: int| 0 <= u < t && cell_of(u, self.size) == c) && in_bounds(c, self.size)
                        && !self.wall(c),
            decreases n - t,
        {
            proof {
                lemma_layout(self.size);
            }
            let c = cell_at(t, &self.size);
            let ghost rb = r@;
            if !self.is_wall(&c) {
                r.push(c);
            }
            proof {
                assert forall|x: Cell|
                    #[trigger] r@.contains(x) <==> (exists|u: int| 0 <= u < t + 1 && cell_of(u, self.size) == x) && in_bounds(x, self.size)
                        && !self.wall(x) by {
                    if r@.contains(x) && x != c {
                        let j = choose|j: int| 0 <= j < r@.len() && r@[j] == x;
                        assert(rb[j] == x);
                        assert(rb.contains(x));
                    }
                    if x == c && r@.len() > rb.len() {
                        assert(r@[r@.len() - 1] == c);
                    }
                    if (exists|u: int| 0 <= u < t && cell_of(u, self.size) == x) && in_bounds(x, self.size) && !self.wall(x) {
                        assert(rb.contains(x));
                        let j = choose|j: int| 0 <= j < rb.len() && rb[j] == x;
                        assert(r@[j] == x);
                    }
                }
            }
            t = t + 1;
        }
        proof {
            lemma_layout(self.size);
            assert forall|c: Cell| #[trigger] r@.contains(c) <==> in_bounds(c, self.size) && !self.wall(c) by {
                if in_bounds(c, self.size) {
                    assert(cell_of(crate::grid::index_of(c, self.size), self.size) == c);
                }
            }
        }
        r
    }

    /// A free cell drawn uniformly from the free cells of the grid, or `None` when every cell is a wall.
    /// The grid has no axis of extent zero.
    pub fn random_free(&self, rng: &mut StdRng) -> (r: Option<Cell>)
        requires
            self.wf(),
            self.spec_size().x > 0,
            self.spec_size().y > 0,
            self.spec_size().z > 0,
        ensures
            match r {
                Some(c) => in_bounds(c, self.spec_size()) && !self.wall(c),
                None => forall|c: Cell| in_bounds(c, self.spec_size()) ==> self.wall(c),
            },
    {
        let free = self.free_cells_list();
        if free.len() == 0 {
            proof {
                assert forall|c: Cell| in_bounds(c, self.size) implies self.wall(c) by {
                    if !self.wall(c) {
                        assert(free@.contains(c));
                    }
                }
            }
            None
        } else {
            let i = random_below(rng, free.len());
            assert(free@.contains(free@[i as int]));
            Some(free[i])
        }
    }
}

} // verus!
