use vstd::prelude::*;
use rand::rngs::StdRng;
use crate::grid::{cell_at, cell_of, in_bounds, near_cell, shift, volume, Cell, Dim};
use crate::maze::{cell_count, neighbour_offsets, Maze};
use crate::rng::random_below;
use crate::zones::adjacent;

verus! {

/// Before the `j`-th dig of `dug`, cell `x` of `m` was free.
pub open spec fn free_before(m: Maze, dug: Seq<(Cell, Cell)>, j: int, x: Cell) -> bool {
    !m.wall(x) || exists|i: int| 0 <= i < j && dug[i].0 == x
}

proof fn lemma_no_free(m: Maze, c: Cell, kk: int)
    requires
        0 <= kk <= neighbour_offsets(m.spec_dim()).len(),
        m.free_count(c, kk) == 0,
    ensures
        forall|k: int| 0 <= k < kk ==> m.wall(#[trigger] shift(c, neighbour_offsets(m.spec_dim())[k])),
    decreases kk,
{
    if kk > 0 {
        lemma_no_free(m, c, kk - 1);
    }
}

proof fn lemma_one_free(m: Maze, c: Cell, kk: int, k0: int)
    requires
        0 <= k0 < kk <= neighbour_offsets(m.spec_dim()).len(),
        m.free_count(c, kk) == 1,
        !m.wall(shift(c, neighbour_offsets(m.spec_dim())[k0])),
    ensures
        forall|k: int| 0 <= k < kk && k != k0 ==> m.wall(#[trigger] shift(c, neighbour_offsets(m.spec_dim())[k])),
    decreases kk,
{
    if k0 == kk - 1 {
        lemma_no_free(m, c, kk - 1);
    } else {
        if !m.wall(shift(c, neighbour_offsets(m.spec_dim())[kk - 1])) {
            lemma_no_free(m, c, kk - 1);
            assert(false);
        }
        lemma_one_free(m, c, kk - 1, k0);
    }
}

impl Maze {
    /// `c` lies on the outer layer of the grid, or outside it, along an axis of the maze.
    pub open spec fn on_border(&self, c: Cell) -> bool {
        let s = self.spec_size();
        !(1 <= c.x < s.x - 1 && 1 <= c.y < s.y - 1 && (self.spec_dim() == Dim::Three ==> 1 <= c.z < s.z - 1))
    }

    pub fn is_on_border(&self, c: &Cell) -> (r: bool)
        requires
            self.wf(),
        ensures
            r == self.on_border(*c),
    {
        let s = self.size;
        !(1 <= c.x && c.x < s.x - 1 && 1 <= c.y && c.y < s.y - 1 && (self.dim == Dim::Two || (1 <= c.z && c.z < s.z - 1)))
    }

    /// How many of the first `k` unit steps from `c` lead to a free cell.
    pub open spec fn free_count(&self, c: Cell, k: int) -> nat
        decreases k,
    {
        if k <= 0 {
            0
        } else {
            self.free_count(c, k - 1) + (if self.wall(shift(c, neighbour_offsets(self.spec_dim())[k - 1])) {
                0nat
            } else {
                1nat
            })
        }
    }

    /// The first unit step from `c`, in the order of the neighbour offsets, that leads to a free cell.
    fn first_free_neighbour(&self, c: &Cell) -> (r: Option<Cell>)
        requires
            self.wf(),
            near_cell(*c),
        ensures
            match r {
                Some(n) => adjacent(self.spec_dim(), *c, n) && !self.wall(n),
                None => self.free_count(*c, neighbour_offsets(self.spec_dim()).len() as int) == 0,
            },
            self.free_count(*c, neighbour_offsets(self.spec_dim()).len() as int) == 1 ==> r is Some,
    {
        let mut k: usize = 0;
        while k < self.neighbours.len()
            invariant
                self.wf(),
                near_cell(*c),
                k <= self.neighbours@.len(),
                self.free_count(*c, k as int) == 0,
            decreases self.neighbours@.len() - k,
        {
            let n = c.plus(&self.neighbours[k]);
            if !self.is_wall(&n) {
                assert(adjacent(self.dim, *c, n));
                return Some(n);
            }
            k = k + 1;
        }
        None
    }

    /// The number of free cells one unit step away from `c`.
    fn count_free_neighbours(&self, c: &Cell) -> (r: usize)
        requires
            self.wf(),
            near_cell(*c),
        ensures
            r == self.free_count(*c, neighbour_offsets(self.spec_dim()).len() as int),
    {
        let mut count: usize = 0;
        let mut k: usize = 0;
        while k < self.neighbours.len()
            invariant
                self.wf(),
                near_cell(*c),
                k <= self.neighbours@.len(),
                count == self.free_count(*c, k as int),
                count <= k,
            decreases self.neighbours@.len() - k,
        {
            if !self.is_wall(&c.plus(&self.neighbours[k])) {
                count = count + 1;
            }
            k = k + 1;
        }
        count
    }

    /// Whether `c` is the first cell of one of the pairs of `dug`.
    fn is_dug(dug: &Vec<(Cell, Cell)>, c: &Cell) -> (r: bool)
        ensures
            r == exists|j: int| 0 <= j < dug@.len() && dug@[j].0 == *c,
    {
        let mut j: usize = 0;
        while j < dug.len()
            invariant
                j <= dug@.len(),
                forall|i: int| 0 <= i < j ==> dug@[i].0 != *c,
            decreases dug@.len() - j,
        {
            if dug[j].0 == *c {
                return true;
            }
            j = j + 1;
        }
        false
    }

    /// `c` may be dug: off the border, with exactly one free neighbour.
    pub open spec fn diggable(&self, c: Cell) -> bool {
        !self.on_border(c) && self.free_count(c, neighbour_offsets(self.spec_dim()).len() as int) == 1
    }

    /// Frees up to `nbr` cells accepted by `filter`, one at a time, each drawn at random among the
    /// accepted cells not dug yet that lie off the border and have exactly one free neighbour at
    /// that time. Returns each freed cell with that neighbour, its opening; stops early only when
    /// no accepted cell can be dug.
    pub fn dig_cells<F: Fn(&Cell) -> bool>(&mut self, nbr: usize, filter: F, rng: &mut StdRng) -> (r: Vec<(Cell, Cell)>)
        requires
            old(self).wf(),
            forall|c: Cell| in_bounds(c, old(self).spec_size()) ==> filter.requires((&c,)),
        ensures
            final(self).wf(),
            final(self).spec_dim() == old(self).spec_dim(),
            final(self).spec_size() == old(self).spec_size(),
            r@.len() <= nbr,
            forall|c: Cell| #[trigger]
                final(self).wall(c) == (old(self).wall(c) && !exists|j: int| 0 <= j < r@.len() && r@[j].0 == c),
            forall|j: int|
                0 <= j < r@.len() ==> {
                    let (c, o) = #[trigger] r@[j];
                    &&& in_bounds(c, old(self).spec_size())
                    &&& !old(self).on_border(c)
                    &&& filter.ensures((&c,), true)
                    &&& adjacent(old(self).spec_dim(), c, o)
                    &&& !final(self).wall(o)
                },
            r@.len() < nbr ==> forall|c: Cell|
                in_bounds(c, final(self).spec_size()) && !(exists|j: int| 0 <= j < r@.len() && r@[j].0 == c)
                    && #[trigger] final(self).diggable(c) ==> filter.ensures((&c,), false),
            forall|j: int, k: int|
                0 <= j < r@.len() && 0 <= k < neighbour_offsets(old(self).spec_dim()).len() ==> (free_before(
                    *old(self),
                    r@,
                    j,
                    #[trigger] shift(r@[j].0, neighbour_offsets(old(self).spec_dim())[k]),
                ) <==> shift(r@[j].0, neighbour_offsets(old(self).spec_dim())[k]) == r@[j].1),
    {
        let ghost before = *self;
        let n = cell_count(&self.size);
        let mut accepted: Vec<Cell> = Vec::new();
        let mut t: usize = 0;
        while t < n
            invariant
                before == *old(self),
                self.wf(),
                *self == before,
                n == volume(self.size),
                t <= n,
                forall|c: Cell| in_bounds(c, old(self).spec_size()) ==> filter.requires((&c,)),
                forall|j: int| 0 <= j < accepted@.len() ==> in_bounds(#[trigger] accepted@[j], self.size) && filter.ensures((&accepted@[j],), true),
                forall|u: int| 0 <= u < t ==> accepted@.contains(#[trigger] cell_of(u, self.size)) || filter.ensures((&cell_of(u, self.size),), false),
            decreases n - t,
        {
            proof {
                crate::grid::lemma_layout(self.size);
            }
            let c = cell_at(t, &self.size);
            let ghost ab = accepted@;
            assert(in_bounds(c, old(self).spec_size()));
            if filter(&c) {
                accepted.push(c);
                proof {
                    assert(accepted@[accepted@.len() - 1] == c);
                }
            }
            proof {
                assert forall|u: int| 0 <= u < t + 1 implies accepted@.contains(#[trigger] cell_of(u, self.size)) || filter.ensures((&cell_of(u, self.size),), false) by {
                    if u < t && ab.contains(cell_of(u, self.size)) {
                        let j = choose|j: int| 0 <= j < ab.len() && ab[j] == cell_of(u, self.size);
                        assert(accepted@[j] == ab[j]);
                    }
                }
                assert forall|j: int| 0 <= j < accepted@.len() implies in_bounds(#[trigger] accepted@[j], self.size) && filter.ensures((&accepted@[j],), true) by {
                    if j < ab.len() {
                        assert(accepted@[j] == ab[j]);
                    }
                }
            }
            t = t + 1;
        }
        proof {
            crate::grid::lemma_layout(self.size);
            assert forall|c: Cell| in_bounds(c, self.size) implies accepted@.contains(c) || filter.ensures((&c,), false) by {
                assert(cell_of(crate::grid::index_of(c, self.size), self.size) == c);
            }
        }
        let mut res: Vec<(Cell, Cell)> = Vec::new();
        let mut round: usize = 0;
        while round < nbr
            invariant
                before == *old(self),
                self.wf(),
                self.dim == before.dim,
                self.size == before.size,
                res@.len() == round,
                round <= nbr,
                forall|j: int| 0 <= j < accepted@.len() ==> in_bounds(#[trigger] accepted@[j], self.size) && filter.ensures((&accepted@[j],), true),
                forall|c: Cell| in_bounds(c, self.size) ==> accepted@.contains(c) || filter.ensures((&c,), false),
                forall|c: Cell| #[trigger]
                    self.wall(c) == (before.wall(c) && !exists|j: int| 0 <= j < res@.len() && res@[j].0 == c),
                forall|j: int|
                    0 <= j < res@.len() ==> {
                        let (c, o) = #[trigger] res@[j];
                        &&& in_bounds(c, before.size)
                        &&& !before.on_border(c)
                        &&& filter.ensures((&c,), true)
                        &&& adjacent(before.dim, c, o)
                        &&& !self.wall(o)
                    },
                forall|j: int, k: int|
                    0 <= j < res@.len() && 0 <= k < neighbour_offsets(before.dim).len() ==> (free_before(
                        before,
                        res@,
                        j,
                        #[trigger] shift(res@[j].0, neighbour_offsets(before.dim)[k]),
                    ) <==> shift(res@[j].0, neighbour_offsets(before.dim)[k]) == res@[j].1),
            decreases nbr - round,
        {
            let mut kept: Vec<Cell> = Vec::new();
            let mut p: usize = 0;
            while p < accepted.len()
                invariant
                    before == *old(self),
                    self.wf(),
                    self.dim == before.dim,
                    self.size == before.size,
                    res@.len() == round,
                    round < nbr,
                    forall|c: Cell| #[trigger]
                        self.wall(c) == (before.wall(c) && !exists|j: int| 0 <= j < res@.len() && res@[j].0 == c),
                    forall|j: int|
                        0 <= j < res@.len() ==> {
                            let (c, o) = #[trigger] res@[j];
                            &&& in_bounds(c, before.size)
                            &&& !before.on_border(c)
                            &&& filter.ensures((&c,), true)
                            &&& adjacent(before.dim, c, o)
                            &&& !self.wall(o)
                        },
                    forall|j: int, k: int|
                        0 <= j < res@.len() && 0 <= k < neighbour_offsets(before.dim).len() ==> (free_before(
                            before,
                            res@,
                            j,
                            #[trigger] shift(res@[j].0, neighbour_offsets(before.dim)[k]),
                        ) <==> shift(res@[j].0, neighbour_offsets(before.dim)[k]) == res@[j].1),
                    p <= accepted@.len(),
                    forall|j: int| 0 <= j < accepted@.len() ==> in_bounds(#[trigger] accepted@[j], self.size) && filter.ensures((&accepted@[j],), true),
                    forall|c: Cell| in_bounds(c, self.size) ==> accepted@.contains(c) || filter.ensures((&c,), false),
                    forall|j: int|
                        0 <= j < kept@.len() ==> in_bounds(#[trigger] kept@[j], self.size) && filter.ensures((&kept@[j],), true)
                            && self.diggable(kept@[j]),
                    forall|q: int|
                        0 <= q < p && self.diggable(#[trigger] accepted@[q]) && !(exists|j: int| 0 <= j < res@.len() && res@[j].0 == accepted@[q])
                            ==> kept@.contains(accepted@[q]),
                decreases accepted@.len() - p,
            {
                let c = accepted[p];
                let ghost kb = kept@;
                if !Self::is_dug(&res, &c) && self.count_free_neighbours(&c) == 1 && !self.is_on_border(&c) {
                    kept.push(c);
                }
                proof {
                    assert forall|q: int|
                        0 <= q < p + 1 && self.diggable(#[trigger] accepted@[q]) && !(exists|j: int| 0 <= j < res@.len() && res@[j].0 == accepted@[q])
                            implies kept@.contains(accepted@[q]) by {
                        if q < p {
                            let j = choose|j: int| 0 <= j < kb.len() && kb[j] == accepted@[q];
                            assert(kept@[j] == kb[j]);
                        } else {
                            assert(kept@[kept@.len() - 1] == c);
                        }
                    }
                    assert forall|j: int|
                        0 <= j < kept@.len() implies in_bounds(#[trigger] kept@[j], self.size) && filter.ensures((&kept@[j],), true)
                            && self.diggable(kept@[j]) by {
                        if j < kb.len() {
                            assert(kept@[j] == kb[j]);
                        }
                    }
                }
                p = p + 1;
            }
            if kept.len() == 0 {
                proof {
                    assert forall|c: Cell|
                        in_bounds(c, self.size) && !(exists|j: int| 0 <= j < res@.len() && res@[j].0 == c)
                            && #[trigger] self.diggable(c) implies filter.ensures((&c,), false) by {
                        if accepted@.contains(c) {
                            let q = choose|q: int| 0 <= q < accepted@.len() && accepted@[q] == c;
                            assert(self.diggable(accepted@[q]));
                        }
                    }
                }
                return res;
            }
            let i = random_below(rng, kept.len());
            let cell = kept[i];
            assert(in_bounds(cell, self.size));
            let opening = self.first_free_neighbour(&cell);
            let o = opening.unwrap();
            proof {
                let k0 = choose|k: int| 0 <= k < neighbour_offsets(self.dim).len() && o == #[trigger] shift(cell, neighbour_offsets(self.dim)[k]);
                lemma_one_free(*self, cell, neighbour_offsets(self.dim).len() as int, k0);
                assert forall|k: int| 0 <= k < neighbour_offsets(self.dim).len() implies (!self.wall(
                    #[trigger] shift(cell, neighbour_offsets(self.dim)[k]),
                ) <==> shift(cell, neighbour_offsets(self.dim)[k]) == o) by {
                    if k != k0 {
                        assert(shift(cell, neighbour_offsets(self.dim)[k]) != o);
                    }
                }
            }
            let ghost mid = *self;
            self.clear_wall(&cell);
            let ghost rb = res@;
            res.push((cell, o));
            proof {
                assert forall|c: Cell| #[trigger]
                    self.wall(c) == (before.wall(c) && !exists|j: int| 0 <= j < res@.len() && res@[j].0 == c) by {
                    if exists|j: int| 0 <= j < rb.len() && rb[j].0 == c {
                        let j = choose|j: int| 0 <= j < rb.len() && rb[j].0 == c;
                        assert(res@[j].0 == c);
                    }
                    if exists|j: int| 0 <= j < res@.len() && res@[j].0 == c {
                        let j = choose|j: int| 0 <= j < res@.len() && res@[j].0 == c;
                        if j < rb.len() {
                            assert(rb[j].0 == c);
                        }
                    }
                    if c == cell {
                        assert(res@[rb.len() as int].0 == c);
                    }
                }
                assert forall|j: int|
                    0 <= j < res@.len() implies {
                        let (c, o) = #[trigger] res@[j];
                        &&& in_bounds(c, before.size)
                        &&& !before.on_border(c)
                        &&& filter.ensures((&c,), true)
                        &&& adjacent(before.dim, c, o)
                        &&& !self.wall(o)
                    } by {
                    if j < rb.len() {
                        assert(res@[j] == rb[j]);
                    }
                }
                assert forall|j: int, k: int|
                    0 <= j < res@.len() && 0 <= k < neighbour_offsets(before.dim).len() implies (free_before(
                        before,
                        res@,
                        j,
                        #[trigger] shift(res@[j].0, neighbour_offsets(before.dim)[k]),
                    ) <==> shift(res@[j].0, neighbour_offsets(before.dim)[k]) == res@[j].1) by {
                    let x = shift(res@[j].0, neighbour_offsets(before.dim)[k]);
                    if j < rb.len() {
                        assert(res@[j] == rb[j]);
                        assert((exists|i: int| 0 <= i < j && res@[i].0 == x) == (exists|i: int| 0 <= i < j && rb[i].0 == x)) by {
                            if exists|i: int| 0 <= i < j && res@[i].0 == x {
                                let i = choose|i: int| 0 <= i < j && res@[i].0 == x;
                                assert(rb[i] == res@[i]);
                            }
                            if exists|i: int| 0 <= i < j && rb[i].0 == x {
                                let i = choose|i: int| 0 <= i < j && rb[i].0 == x;
                                assert(rb[i] == res@[i]);
                            }
                        }
                        assert(free_before(before, rb, j, x) <==> x == rb[j].1);
                        assert(free_before(before, res@, j, x) == free_before(before, rb, j, x));
                    } else {
                        assert(res@[j] == (cell, o));
                        assert(!mid.wall(x) == free_before(before, res@, j, x)) by {
                            if exists|i: int| 0 <= i < j && res@[i].0 == x {
                                let i = choose|i: int| 0 <= i < j && res@[i].0 == x;
                                assert(rb[i] == res@[i]);
                            }
                            if exists|i: int| 0 <= i < rb.len() && rb[i].0 == x {
                                let i = choose|i: int| 0 <= i < rb.len() && rb[i].0 == x;
                                assert(rb[i] == res@[i]);
                            }
                        }
                    }
                }
            }
            round = round + 1;
        }
        res
    }
}

} // verus!
