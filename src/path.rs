use vstd::prelude::*;
use crate::grid::{in_bounds, in_grid, near_cell, shift, Cell, Dim, MAX_SIDE};
use crate::maze::{axes_moved, neighbour_offsets, opening_cost, opening_offsets, Maze};

verus! {

impl Maze {
    /// A legal move leads from `a` to `b`, inside the grid, at the given cost.
    pub open spec fn step(&self, a: Cell, b: Cell, cost: int) -> bool {
        exists|k: int|
            0 <= k < opening_offsets(self.spec_dim()).len() && b == #[trigger] shift(a, opening_offsets(self.spec_dim())[k])
                && self.usable(a, opening_offsets(self.spec_dim())[k]) && in_bounds(b, self.spec_size()) && cost
                == opening_cost(opening_offsets(self.spec_dim())[k])
    }

    /// Some legal move leads from `a` to `b`.
    pub open spec fn can_move(&self, a: Cell, b: Cell) -> bool {
        exists|cost: int| #[trigger] self.step(a, b, cost)
    }

    /// `p` leads from `start` to `goal` by legal moves and passes no cell twice.
    pub open spec fn is_route(&self, p: Seq<Cell>, start: Cell, goal: Cell) -> bool {
        &&& p.len() > 0
        &&& p[0] == start
        &&& p.last() == goal
        &&& p.no_duplicates()
        &&& forall|t: int| 0 <= t < p.len() - 1 ==> self.can_move(#[trigger] p[t], p[t + 1])
    }

    /// The legal moves from `c` that stay inside the grid, with their costs.
    pub fn successors(&self, c: &Cell) -> (r: Vec<(Cell, isize)>)
        requires
            self.wf(),
            near_cell(*c),
        ensures
            forall|j: int| 0 <= j < r@.len() ==> self.step(*c, (#[trigger] r@[j]).0, r@[j].1 as int),
            forall|b: Cell, cost: int| self.step(*c, b, cost) ==> exists|j: int| 0 <= j < r@.len() && #[trigger] r@[j] == (b, cost as isize),
    {
        let mut r: Vec<(Cell, isize)> = Vec::new();
        let mut k: usize = 0;
        while k < self.openings.len()
            invariant
                self.wf(),
                near_cell(*c),
                k <= self.openings@.len(),
                forall|j: int| 0 <= j < r@.len() ==> self.step(*c, (#[trigger] r@[j]).0, r@[j].1 as int),
                forall|kk: int|
                    0 <= kk < k && self.usable(*c, opening_offsets(self.dim)[kk]) && in_bounds(
                        #[trigger] shift(*c, opening_offsets(self.dim)[kk]),
                        self.size,
                    ) ==> exists|j: int|
                        0 <= j < r@.len() && #[trigger] r@[j] == (
                            shift(*c, opening_offsets(self.dim)[kk]),
                            opening_cost(opening_offsets(self.dim)[kk]) as isize,
                        ),
            decreases self.openings@.len() - k,
        {
            let o = self.openings[k];
            assert(o.cell == opening_offsets(self.dim)[k as int]);
            let n = c.plus(&o.cell);
            if self.is_usable(c, &o.cell) && in_grid(&n, &self.size) {
                let ghost rb = r@;
                r.push((n, o.cost));
                proof {
                    assert(self.step(*c, n, o.cost as int));
                    assert forall|j: int| 0 <= j < r@.len() implies self.step(*c, (#[trigger] r@[j]).0, r@[j].1 as int) by {
                        if j < rb.len() {
                            assert(r@[j] == rb[j]);
                        }
                    }
                    assert(r@[r@.len() - 1] == (n, o.cost));
                    assert forall|kk: int|
                        0 <= kk < k + 1 && self.usable(*c, opening_offsets(self.dim)[kk]) && in_bounds(
                            #[trigger] shift(*c, opening_offsets(self.dim)[kk]),
                            self.size,
                        ) implies exists|j: int|
                            0 <= j < r@.len() && #[trigger] r@[j] == (
                                shift(*c, opening_offsets(self.dim)[kk]),
                                opening_cost(opening_offsets(self.dim)[kk]) as isize,
                            ) by {
                        if kk < k {
                            let j = choose|j: int|
                                0 <= j < rb.len() && #[trigger] rb[j] == (
                                    shift(*c, opening_offsets(self.dim)[kk]),
                                    opening_cost(opening_offsets(self.dim)[kk]) as isize,
                                );
                            assert(r@[j] == rb[j]);
                        } else {
                            assert(r@[r@.len() - 1] == (
                                shift(*c, opening_offsets(self.dim)[kk]),
                                opening_cost(opening_offsets(self.dim)[kk]) as isize,
                            ));
                        }
                    }
                }
            }
            k = k + 1;
        }
        proof {
            assert forall|b: Cell, cost: int| self.step(*c, b, cost) implies exists|j: int|
                0 <= j < r@.len() && #[trigger] r@[j] == (b, cost as isize) by {
                let kk = choose|kk: int|
                    0 <= kk < opening_offsets(self.dim).len() && b == #[trigger] shift(*c, opening_offsets(self.dim)[kk])
                        && self.usable(*c, opening_offsets(self.dim)[kk]) && in_bounds(b, self.size) && cost
                        == opening_cost(opening_offsets(self.dim)[kk]);
            }
        }
        r
    }

    /// A lower bound on the cost of reaching `goal` from `c`: ten times the smallest distance
    /// along one axis.
    pub fn heuristic(&self, c: &Cell, goal: &Cell) -> (r: isize)
        requires
            near_cell(*c),
            near_cell(*goal),
        ensures
            r == 10 * self.axis_gap(*c, *goal),
    {
        let dx = if c.x >= goal.x { c.x - goal.x } else { goal.x - c.x };
        let dy = if c.y >= goal.y { c.y - goal.y } else { goal.y - c.y };
        let dz = if c.z >= goal.z { c.z - goal.z } else { goal.z - c.z };
        let mut min = if dy < dx { dy } else { dx };
        if self.dim == Dim::Three && dz < min {
            min = dz;
        }
        min * 10
    }

    /// The smallest distance between `a` and `b` along one axis of the maze.
    pub open spec fn axis_gap(&self, a: Cell, b: Cell) -> int {
        let dx = if a.x >= b.x { a.x - b.x } else { b.x - a.x };
        let dy = if a.y >= b.y { a.y - b.y } else { b.y - a.y };
        let dz = if a.z >= b.z { a.z - b.z } else { b.z - a.z };
        let m = if dy < dx { dy } else { dx };
        if self.spec_dim() == Dim::Three && dz < m {
            dz
        } else {
            m
        }
    }
}

pub fn same_cell(a: &Cell, b: &Cell) -> (r: bool)
    ensures
        r == (*a == *b),
{
    *a == *b
}

/// Relies on `pathfinding::directed::astar::astar`: on the finite graph of legal moves inside
/// the grid it returns a path from `start` to a node for which `success` holds, listing both
/// ends, each node a successor of the one before, none twice, of least total cost when the
/// heuristic never exceeds the cost left; or `None` when no such path exists.
#[verifier::external_body]
fn astar_route(m: &Maze, start: &Cell, goal: &Cell) -> (r: Option<Vec<Cell>>)
    requires
        m.wf(),
        near_cell(*start),
        near_cell(*goal),
        forall|c: Cell, q: Seq<Cell>|
            near_cell(c) && #[trigger] m.is_route(q, c, *goal) ==> 10 * m.axis_gap(c, *goal) <= path_cost(q),
    ensures
        match r {
            Some(p) => m.is_route(p@, *start, *goal) && forall|q: Seq<Cell>|
                #[trigger] m.is_route(q, *start, *goal) ==> path_cost(p@) <= path_cost(q),
            None => forall|p: Seq<Cell>| !m.is_route(p, *start, *goal),
        },
{
    pathfinding::directed::astar::astar(start, |c: &Cell| m.successors(c), |c: &Cell| m.heuristic(c, goal), |c: &Cell| same_cell(c, goal)).map(|found| found.0)
}

impl Maze {
    /// A route of legal moves from `start` to `goal`, of least total cost, or `None` when `goal`
    /// cannot be reached. Moves leave the grid nowhere.
    pub fn find_path(&self, start: Cell, goal: Cell) -> (r: Option<Vec<Cell>>)
        requires
            self.wf(),
            near_cell(start),
            near_cell(goal),
        ensures
            match r {
                Some(p) => self.is_route(p@, start, goal) && forall|q: Seq<Cell>|
                    #[trigger] self.is_route(q, start, goal) ==> path_cost(p@) <= path_cost(q),
                None => forall|p: Seq<Cell>| !self.is_route(p, start, goal),
            },
    {
        proof {
            assert forall|c: Cell, q: Seq<Cell>| near_cell(c) && #[trigger] self.is_route(q, c, goal) implies 10 * self.axis_gap(
                c,
                goal,
            ) <= path_cost(q) by {
                lemma_heuristic_walk(*self, q, goal);
            }
        }
        astar_route(self, &start, &goal)
    }
}

/// The offset from `a` to `b`.
pub open spec fn offset(a: Cell, b: Cell) -> Cell {
    crate::grid::cell(b.x - a.x, b.y - a.y, b.z - a.z)
}

/// The total cost of the moves of `p`, each priced by its offset.
pub open spec fn path_cost(p: Seq<Cell>) -> int
    decreases p.len(),
{
    if p.len() <= 1 {
        0
    } else {
        path_cost(p.drop_last()) + opening_cost(offset(p[p.len() - 2], p[p.len() - 1]))
    }
}

/// Every opening offset moves by at most one along each axis, and by something.
pub proof fn lemma_opening_offsets(dim: Dim, k: int)
    requires
        0 <= k < opening_offsets(dim).len(),
    ensures
        -1 <= opening_offsets(dim)[k].x <= 1,
        -1 <= opening_offsets(dim)[k].y <= 1,
        -1 <= opening_offsets(dim)[k].z <= 1,
        opening_offsets(dim)[k] != crate::grid::cell(0, 0, 0),
{
}

/// One move changes the smallest distance to `goal` along an axis by at most one.
proof fn lemma_gap_step(m: Maze, a: Cell, b: Cell, goal: Cell, k: int)
    requires
        m.wf(),
        near_cell(a),
        near_cell(goal),
        0 <= k < opening_offsets(m.spec_dim()).len(),
        b == shift(a, opening_offsets(m.spec_dim())[k]),
    ensures
        m.axis_gap(a, goal) <= m.axis_gap(b, goal) + 1,
        offset(a, b) == opening_offsets(m.spec_dim())[k],
        opening_cost(opening_offsets(m.spec_dim())[k]) >= 10,
{
    lemma_opening_offsets(m.spec_dim(), k);
}

/// Ten times the smallest distance to `goal` along an axis is at most the cost of any walk
/// of legal moves from its first cell to `goal`.
proof fn lemma_heuristic_walk(m: Maze, w: Seq<Cell>, goal: Cell)
    requires
        m.wf(),
        near_cell(goal),
        w.len() > 0,
        near_cell(w[0]),
        forall|t: int| 0 <= t < w.len() - 1 ==> m.can_move(#[trigger] w[t], w[t + 1]),
    ensures
        10 * (m.axis_gap(w[0], goal) - m.axis_gap(w.last(), goal)) <= path_cost(w),
        forall|t: int| 0 <= t < w.len() ==> near_cell(#[trigger] w[t]),
    decreases w.len(),
{
    if w.len() > 1 {
        let v = w.drop_last();
        assert forall|t: int| 0 <= t < v.len() - 1 implies m.can_move(#[trigger] v[t], v[t + 1]) by {
            assert(v[t] == w[t] && v[t + 1] == w[t + 1]);
            assert(m.can_move(w[t], w[t + 1]));
        }
        lemma_heuristic_walk(m, v, goal);
        let a = w[w.len() - 2];
        let b = w[w.len() - 1];
        assert(v.last() == a);
        assert(near_cell(a)) by {
            assert(v[v.len() - 1] == a);
        }
        assert(m.can_move(a, b));
        let cost = choose|cost: int| #[trigger] m.step(a, b, cost);
        let k = choose|k: int|
            0 <= k < opening_offsets(m.spec_dim()).len() && b == #[trigger] shift(a, opening_offsets(m.spec_dim())[k])
                && m.usable(a, opening_offsets(m.spec_dim())[k]) && in_bounds(b, m.spec_size()) && cost
                == opening_cost(opening_offsets(m.spec_dim())[k]);
        lemma_gap_step(m, a, b, goal, k);
        assert forall|t: int| 0 <= t < w.len() implies near_cell(#[trigger] w[t]) by {
            if t < v.len() {
                assert(w[t] == v[t]);
            }
        }
    }
}

/// `c` moved `t` times by the unit step `d`.
#[verifier::opaque]
pub open spec fn along(c: Cell, d: Cell, t: int) -> Cell {
    crate::grid::cell(
        c.x + (if d.x == 1 { t } else if d.x == -1 { -t } else { 0 }),
        c.y + (if d.y == 1 { t } else if d.y == -1 { -t } else { 0 }),
        c.z + (if d.z == 1 { t } else if d.z == -1 { -t } else { 0 }),
    )
}

/// How far `c` lies along the unit step `d`.
#[verifier::opaque]
pub open spec fn progress(c: Cell, d: Cell) -> int {
    (if d.x == 1 { c.x as int } else if d.x == -1 { -c.x } else { 0 }) + (if d.y == 1 { c.y as int } else if d.y
        == -1 { -c.y } else { 0 }) + (if d.z == 1 { c.z as int } else if d.z == -1 { -c.z } else { 0 })
}

/// A unit step moves by one along exactly one axis.
proof fn lemma_neighbour_offset(dim: Dim, k: int)
    requires
        0 <= k < neighbour_offsets(dim).len(),
    ensures
        neighbour_offsets(dim)[k] == opening_offsets(dim)[k],
        axes_moved(neighbour_offsets(dim)[k]) == 1,
        -1 <= neighbour_offsets(dim)[k].x <= 1,
        -1 <= neighbour_offsets(dim)[k].y <= 1,
        -1 <= neighbour_offsets(dim)[k].z <= 1,
{
}

proof fn lemma_along(dim: Dim, c: Cell, kd: int, t: int)
    requires
        near_cell(c),
        0 <= kd < neighbour_offsets(dim).len(),
        0 <= t <= MAX_SIDE,
    ensures
        along(c, neighbour_offsets(dim)[kd], 0) == c,
        along(c, neighbour_offsets(dim)[kd], t + 1) == shift(along(c, neighbour_offsets(dim)[kd], t), neighbour_offsets(dim)[kd]),
        progress(along(c, neighbour_offsets(dim)[kd], t), neighbour_offsets(dim)[kd]) == progress(c, neighbour_offsets(dim)[kd]) + t,
        crate::grid::small_cell(along(c, neighbour_offsets(dim)[kd], t)),
{
    reveal(along);
    reveal(progress);
    lemma_neighbour_offset(dim, kd);
}

/// A move costs at least ten times the progress it makes along a unit step `d`, and exactly
/// that only when it is the step `d` itself.
proof fn lemma_move_progress(m: Maze, a: Cell, b: Cell, cost: int, kd: int)
    requires
        m.wf(),
        near_cell(a),
        0 <= kd < neighbour_offsets(m.spec_dim()).len(),
        m.step(a, b, cost),
    ensures
        cost >= 10 * (progress(b, neighbour_offsets(m.spec_dim())[kd]) - progress(a, neighbour_offsets(m.spec_dim())[kd])),
        cost >= 10,
        cost == 10 * (progress(b, neighbour_offsets(m.spec_dim())[kd]) - progress(a, neighbour_offsets(m.spec_dim())[kd]))
            ==> b == shift(a, neighbour_offsets(m.spec_dim())[kd]),
        cost == opening_cost(offset(a, b)),
        in_bounds(b, m.spec_size()),
{
    let k = choose|k: int|
        0 <= k < opening_offsets(m.spec_dim()).len() && b == #[trigger] shift(a, opening_offsets(m.spec_dim())[k])
            && m.usable(a, opening_offsets(m.spec_dim())[k]) && in_bounds(b, m.spec_size()) && cost
            == opening_cost(opening_offsets(m.spec_dim())[k]);
    lemma_opening_offsets(m.spec_dim(), k);
    lemma_neighbour_offset(m.spec_dim(), kd);
    let o = opening_offsets(m.spec_dim())[k];
    assert(offset(a, b) == o);
    reveal(progress);
}

/// Along a walk of legal moves the cost is at least ten times the progress along the unit
/// step `d`; when it is exactly that, the walk goes straight along `d`.
proof fn lemma_walk_progress(m: Maze, w: Seq<Cell>, kd: int)
    requires
        m.wf(),
        w.len() > 0,
        in_bounds(w[0], m.spec_size()),
        0 <= kd < neighbour_offsets(m.spec_dim()).len(),
        forall|t: int| 0 <= t < w.len() - 1 ==> m.can_move(#[trigger] w[t], w[t + 1]),
    ensures
        path_cost(w) >= 10 * (w.len() - 1),
        path_cost(w) >= 10 * (progress(w.last(), neighbour_offsets(m.spec_dim())[kd]) - progress(
            w[0],
            neighbour_offsets(m.spec_dim())[kd],
        )),
        path_cost(w) == 10 * (progress(w.last(), neighbour_offsets(m.spec_dim())[kd]) - progress(
            w[0],
            neighbour_offsets(m.spec_dim())[kd],
        )) ==> forall|t: int| 0 <= t < w.len() - 1 ==> w[t + 1] == shift(#[trigger] w[t], neighbour_offsets(m.spec_dim())[kd]),
        forall|t: int| 0 <= t < w.len() ==> in_bounds(#[trigger] w[t], m.spec_size()),
    decreases w.len(),
{
    let d = neighbour_offsets(m.spec_dim())[kd];
    lemma_neighbour_offset(m.spec_dim(), kd);
    if w.len() > 1 {
        let v = w.drop_last();
        assert forall|t: int| 0 <= t < v.len() - 1 implies m.can_move(#[trigger] v[t], v[t + 1]) by {
            assert(v[t] == w[t] && v[t + 1] == w[t + 1]);
            assert(m.can_move(w[t], w[t + 1]));
        }
        lemma_walk_progress(m, v, kd);
        let a = w[w.len() - 2];
        let b = w[w.len() - 1];
        assert(v.last() == a);
        assert(in_bounds(a, m.spec_size())) by {
            assert(v[v.len() - 1] == a);
        }
        assert(m.can_move(a, b));
        let cost = choose|cost: int| #[trigger] m.step(a, b, cost);
        lemma_move_progress(m, a, b, cost, kd);
        assert(path_cost(w) == path_cost(v) + cost);
        if path_cost(w) == 10 * (progress(w.last(), d) - progress(w[0], d)) {
            assert(path_cost(v) == 10 * (progress(v.last(), d) - progress(v[0], d)));
            assert(b == shift(a, d));
            assert forall|t: int| 0 <= t < w.len() - 1 implies w[t + 1] == shift(#[trigger] w[t], d) by {
                if t < v.len() - 1 {
                    assert(w[t] == v[t] && w[t + 1] == v[t + 1]);
                }
            }
        }
        assert forall|t: int| 0 <= t < w.len() implies in_bounds(#[trigger] w[t], m.spec_size()) by {
            if t < v.len() {
                assert(w[t] == v[t]);
            }
        }
    }
}

/// A unit step to a free cell of the grid is a legal move of cost 10.
proof fn lemma_unit_move(m: Maze, a: Cell, kd: int)
    requires
        m.wf(),
        crate::grid::small_cell(a),
        0 <= kd < neighbour_offsets(m.spec_dim()).len(),
        in_bounds(shift(a, neighbour_offsets(m.spec_dim())[kd]), m.spec_size()),
        !m.wall(shift(a, neighbour_offsets(m.spec_dim())[kd])),
    ensures
        m.can_move(a, shift(a, neighbour_offsets(m.spec_dim())[kd])),
        opening_cost(neighbour_offsets(m.spec_dim())[kd]) == 10,
{
    let d = neighbour_offsets(m.spec_dim())[kd];
    lemma_neighbour_offset(m.spec_dim(), kd);
    assert(shift(a, opening_offsets(m.spec_dim())[kd]) == shift(a, d));
    assert(crate::grid::cell(d.x as int, d.y as int, d.z as int) == d);
    assert(m.usable(a, d));
    assert(m.step(a, shift(a, d), opening_cost(d)));
}

/// The straight segment of `n + 1` free cells from `start` by the unit step `d` is a route from
/// one end to the other.
proof fn lemma_segment_route(m: Maze, start: Cell, kd: int, n: int)
    requires
        m.wf(),
        0 <= n <= MAX_SIDE,
        near_cell(start),
        0 <= kd < neighbour_offsets(m.spec_dim()).len(),
        forall|t: int|
            0 <= t <= n ==> in_bounds(#[trigger] along(start, neighbour_offsets(m.spec_dim())[kd], t), m.spec_size())
                && !m.wall(along(start, neighbour_offsets(m.spec_dim())[kd], t)),
    ensures
        m.is_route(
            Seq::new((n + 1) as nat, |t: int| along(start, neighbour_offsets(m.spec_dim())[kd], t)),
            start,
            along(start, neighbour_offsets(m.spec_dim())[kd], n),
        ),
{
    let d = neighbour_offsets(m.spec_dim())[kd];
    let seg = Seq::new((n + 1) as nat, |t: int| along(start, d, t));
    lemma_along(m.spec_dim(), start, kd, 0);
    assert(seg[0] == start);
    assert forall|t: int| 0 <= t < seg.len() - 1 implies m.can_move(#[trigger] seg[t], seg[t + 1]) by {
        lemma_along(m.spec_dim(), start, kd, t);
        assert(in_bounds(along(start, d, t + 1), m.spec_size()));
        lemma_unit_move(m, seg[t], kd);
    }
    assert forall|i: int, j: int| 0 <= i < seg.len() && 0 <= j < seg.len() && i != j implies seg[i] != seg[j] by {
        lemma_along(m.spec_dim(), start, kd, i);
        lemma_along(m.spec_dim(), start, kd, j);
    }
}

/// The straight segment of `n + 1` cells from `start` by a unit step costs `10 * n`.
proof fn lemma_segment_cost(dim: Dim, start: Cell, kd: int, n: int)
    requires
        0 <= n <= MAX_SIDE,
        near_cell(start),
        0 <= kd < neighbour_offsets(dim).len(),
    ensures
        path_cost(Seq::new((n + 1) as nat, |t: int| along(start, neighbour_offsets(dim)[kd], t))) == 10 * n,
    decreases n,
{
    let d = neighbour_offsets(dim)[kd];
    let seg = Seq::new((n + 1) as nat, |t: int| along(start, d, t));
    if n > 0 {
        lemma_segment_cost(dim, start, kd, n - 1);
        let shorter = Seq::new(n as nat, |t: int| along(start, d, t));
        assert(seg.drop_last() =~= shorter);
        lemma_along(dim, start, kd, n - 1);
        lemma_neighbour_offset(dim, kd);
        assert(offset(seg[n - 1], seg[n]) == d);
    }
}

/// In a maze with a straight run of `n + 1` free cells from `start` by a unit step `d`, along
/// any axis and either way, the result of `find_path` from one end of the run to the other is
/// that run: exactly `n + 1` cells, each one step `d` from the one before, of total cost `10 * n`.
pub proof fn lemma_find_path_straight_corridor(m: Maze, start: Cell, kd: int, n: int, found: Option<Seq<Cell>>)
    requires
        m.wf(),
        0 <= n <= MAX_SIDE,
        near_cell(start),
        0 <= kd < neighbour_offsets(m.spec_dim()).len(),
        forall|t: int|
            0 <= t <= n ==> in_bounds(#[trigger] along(start, neighbour_offsets(m.spec_dim())[kd], t), m.spec_size())
                && !m.wall(along(start, neighbour_offsets(m.spec_dim())[kd], t)),
        match found {
            Some(p) => m.is_route(p, start, along(start, neighbour_offsets(m.spec_dim())[kd], n)) && forall|q: Seq<Cell>|
                #[trigger] m.is_route(q, start, along(start, neighbour_offsets(m.spec_dim())[kd], n)) ==> path_cost(p)
                    <= path_cost(q),
            None => forall|p: Seq<Cell>| !m.is_route(p, start, along(start, neighbour_offsets(m.spec_dim())[kd], n)),
        },
    ensures
        found is Some,
        found.unwrap().len() == n + 1,
        forall|t: int| 0 <= t <= n ==> #[trigger] found.unwrap()[t] == along(start, neighbour_offsets(m.spec_dim())[kd], t),
        path_cost(found.unwrap()) == 10 * n,
{
    let d = neighbour_offsets(m.spec_dim())[kd];
    lemma_segment_route(m, start, kd, n);
    lemma_segment_cost(m.spec_dim(), start, kd, n);
    let seg = Seq::new((n + 1) as nat, |t: int| along(start, d, t));
    let p = found.unwrap();
    assert(m.is_route(seg, start, along(start, d, n)));
    assert(path_cost(p) <= path_cost(seg));
    lemma_along(m.spec_dim(), start, kd, 0);
    assert(in_bounds(start, m.spec_size()));
    lemma_walk_progress(m, p, kd);
    lemma_along(m.spec_dim(), start, kd, n);
    assert(progress(p.last(), d) - progress(p[0], d) == n);
    assert(path_cost(p) == 10 * n);
    assert(p.len() <= n + 1);
    assert forall|t: int| 0 <= t < p.len() implies #[trigger] p[t] == along(start, d, t) by {
        lemma_straight_prefix(m, start, kd, n, p, t);
    }
    let last = p.len() - 1;
    assert(p[last] == along(start, d, last));
    lemma_along(m.spec_dim(), start, kd, last);
    assert(last == n);
}

proof fn lemma_straight_prefix(m: Maze, start: Cell, kd: int, n: int, p: Seq<Cell>, t: int)
    requires
        0 <= n <= MAX_SIDE,
        near_cell(start),
        0 <= kd < neighbour_offsets(m.spec_dim()).len(),
        0 <= t < p.len() <= n + 1,
        p[0] == start,
        forall|s: int| 0 <= s < p.len() - 1 ==> p[s + 1] == shift(#[trigger] p[s], neighbour_offsets(m.spec_dim())[kd]),
    ensures
        p[t] == along(start, neighbour_offsets(m.spec_dim())[kd], t),
    decreases t,
{
    lemma_along(m.spec_dim(), start, kd, 0);
    if t > 0 {
        lemma_straight_prefix(m, start, kd, n, p, t - 1);
        lemma_along(m.spec_dim(), start, kd, t - 1);
        assert(p[t] == shift(p[t - 1], neighbour_offsets(m.spec_dim())[kd]));
    }
}

} // verus!
