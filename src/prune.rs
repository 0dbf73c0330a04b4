use vstd::prelude::*;
use crate::grid::{in_bounds, near_cell, shift, Cell};
use crate::maze::{neighbour_offsets, Maze};
use crate::zones::{is_free_zoning, is_zoning, lemma_walk_stays_in_zone, linked_within, walk_within, zones_view};

verus! {

/// `after` is `before` with every free cell outside the zone `zones[m]` walled, where `zones`
/// are the zones of free cells of `before` and `zones[m]` is the first of the largest ones;
/// `changed` tells whether there was more than one zone.
pub open spec fn keeps_largest(before: Maze, after: Maze, changed: bool) -> bool {
    exists|zones: Seq<Seq<Cell>>, m: int|
        #![trigger is_free_zoning(before, zones), zones[m]]
        is_free_zoning(before, zones) && {
            &&& changed == (zones.len() > 1)
            &&& zones.len() == 0 ==> forall|c: Cell| #[trigger] after.wall(c) == before.wall(c)
            &&& zones.len() > 0 ==> {
                &&& 0 <= m < zones.len()
                &&& forall|i: int| 0 <= i < zones.len() ==> #[trigger] zones[i].len() <= zones[m].len()
                &&& forall|i: int| 0 <= i < m ==> #[trigger] zones[i].len() < zones[m].len()
                &&& forall|c: Cell| #[trigger]
                    after.wall(c) == (before.wall(c) || (in_bounds(c, before.spec_size()) && !zones[m].contains(c)))
            }
        }
}

impl Maze {
    /// Keeps the largest zone of free cells and walls every other free cell.
    /// Returns whether a cell was walled.
    pub fn fill_smallests(&mut self) -> (changed: bool)
        requires
            old(self).wf(),
        ensures
            final(self).wf(),
            final(self).spec_dim() == old(self).spec_dim(),
            final(self).spec_size() == old(self).spec_size(),
            keeps_largest(*old(self), *final(self), changed),
    {
        let ghost before = *self;
        let zones = self.compute_free_zones();
        let ghost zs = zones_view(zones@);
        proof {
            assert forall|i: int| 0 <= i < zs.len() implies #[trigger] zs[i] == zones@[i]@ by {}
        }
        if zones.len() == 0 {
            proof {
                assert(is_free_zoning(before, zs) && {
                    &&& false == (zs.len() > 1)
                    &&& zs.len() == 0 ==> forall|c: Cell| #[trigger] self.wall(c) == before.wall(c)
                    &&& zs.len() > 0 ==> true
                });
            }
            return false;
        }
        let mut m: usize = 0;
        let mut i: usize = 1;
        while i < zones.len()
            invariant
                0 <= m < i <= zones@.len(),
                forall|j: int| 0 <= j < i ==> #[trigger] zones@[j]@.len() <= zones@[m as int]@.len(),
                forall|j: int| 0 <= j < m ==> #[trigger] zones@[j]@.len() < zones@[m as int]@.len(),
            decreases zones@.len() - i,
        {
            if zones[i].len() > zones[m].len() {
                m = i;
            }
            i = i + 1;
        }
        let mut q: usize = 0;
        while q < zones.len()
            invariant
                self.wf(),
                self.dim == before.dim,
                self.size == before.size,
                is_free_zoning(before, zs),
                zs.len() == zones@.len(),
                forall|j: int| 0 <= j < zs.len() ==> #[trigger] zs[j] == zones@[j]@,
                0 <= m < zones@.len(),
                q <= zones@.len(),
                forall|c: Cell| #[trigger]
                    self.wall(c) == (before.wall(c) || exists|j: int|
                        0 <= j < q && j != m && #[trigger] zs[j].contains(c)),
            decreases zones@.len() - q,
        {
            if q != m {
                let zone = &zones[q];
                let mut p: usize = 0;
                let ghost mid = *self;
                while p < zone.len()
                    invariant
                        self.wf(),
                        self.dim == before.dim,
                        self.size == before.size,
                        is_free_zoning(before, zs),
                        zone@ == zs[q as int],
                        0 <= q < zs.len(),
                        p <= zone@.len(),
                        forall|c: Cell| #[trigger]
                            self.wall(c) == (mid.wall(c) || exists|j: int| 0 <= j < p && zone@[j] == c),
                    decreases zone@.len() - p,
                {
                    assert(zs[q as int].contains(zone@[p as int]));
                    self.set_wall(&zone[p]);
                    proof {
                        assert forall|c: Cell| #[trigger]
                            self.wall(c) == (mid.wall(c) || exists|j: int| 0 <= j < p + 1 && zone@[j] == c) by {
                            if c == zone@[p as int] {
                                assert(exists|j: int| 0 <= j < p + 1 && zone@[j] == c);
                            }
                        }
                    }
                    p = p + 1;
                }
                proof {
                    assert forall|c: Cell| #[trigger]
                        self.wall(c) == (before.wall(c) || exists|j: int|
                            0 <= j < q + 1 && j != m && #[trigger] zs[j].contains(c)) by {
                        if zs[q as int].contains(c) {
                            let j = choose|j: int| 0 <= j < zone@.len() && zone@[j] == c;
                            assert(exists|jj: int| 0 <= jj < p && zone@[jj] == c);
                        }
                        if exists|jj: int| 0 <= jj < p && zone@[jj] == c {
                            assert(zs[q as int].contains(c));
                        }
                    }
                }
            }
            q = q + 1;
        }
        proof {
            assert forall|c: Cell| #[trigger]
                self.wall(c) == (before.wall(c) || (in_bounds(c, before.size) && !zs[m as int].contains(c))) by {
                if in_bounds(c, before.size) && !zs[m as int].contains(c) && !before.wall(c) {
                    let accept = |c: Cell| !before.wall(c);
                    assert(accept(c));
                    let j = choose|j: int| 0 <= j < zs.len() && #[trigger] zs[j].contains(c);
                    assert(j != m);
                }
                if exists|j: int| 0 <= j < zs.len() && j != m && #[trigger] zs[j].contains(c) {
                    let j = choose|j: int| 0 <= j < zs.len() && j != m && #[trigger] zs[j].contains(c);
                    assert(in_bounds(c, before.size));
                    if zs[m as int].contains(c) {
                        assert(j == m);
                    }
                }
            }
            assert(is_free_zoning(before, zs) && {
                &&& (zones@.len() > 1) == (zs.len() > 1)
                &&& zs.len() > 0 ==> {
                    &&& 0 <= m < zs.len()
                    &&& forall|i: int| 0 <= i < zs.len() ==> #[trigger] zs[i].len() <= zs[m as int].len()
                    &&& forall|i: int| 0 <= i < m ==> #[trigger] zs[i].len() < zs[m as int].len()
                    &&& forall|c: Cell| #[trigger]
                        self.wall(c) == (before.wall(c) || (in_bounds(c, before.size) && !zs[m as int].contains(c)))
                }
            });
        }
        zones.len() > 1
    }
}

/// Walling every free cell outside one zone of free cells leaves at most one zone of free cells.
pub proof fn lemma_one_zone_left(before: Maze, after: Maze, zones: Seq<Seq<Cell>>, k: int, rest: Seq<Seq<Cell>>)
    requires
        before.wf(),
        after.spec_dim() == before.spec_dim(),
        after.spec_size() == before.spec_size(),
        is_free_zoning(before, zones),
        0 <= k < zones.len(),
        forall|c: Cell| #[trigger]
            after.wall(c) == (before.wall(c) || (in_bounds(c, before.spec_size()) && !zones[k].contains(c))),
        is_free_zoning(after, rest),
    ensures
        rest.len() <= 1,
{
    if rest.len() > 1 {
        let dim = before.spec_dim();
        let size = before.spec_size();
        let kept = zones[k];
        let free_after = |c: Cell| !after.wall(c);
        let free_before = |c: Cell| !before.wall(c);
        assert(rest[0].len() > 0 && rest[1].len() > 0);
        let a = rest[0][0];
        let b = rest[1][0];
        assert(rest[0].contains(a) && rest[1].contains(b));
        assert(in_bounds(a, size) && free_after(a));
        assert(in_bounds(b, size) && free_after(b));
        assert(kept.contains(a) && kept.contains(b));
        assert forall|x: Cell| kept.contains(x) implies in_bounds(x, size) && free_after(x) by {
            assert(in_bounds(x, size) && free_before(x));
        }
        assert(linked_within(dim, kept, kept[0], a));
        assert(linked_within(dim, kept, kept[0], b));
        let wa = choose|w: Seq<Cell>| #[trigger] walk_within(dim, w, kept) && w[0] == kept[0] && w.last() == a;
        let wb = choose|w: Seq<Cell>| #[trigger] walk_within(dim, w, kept) && w[0] == kept[0] && w.last() == b;
        lemma_walk_stays_in_zone(dim, size, free_after, rest, 0, wa, kept);
        lemma_walk_stays_in_zone(dim, size, free_after, rest, 1, wb, kept);
        assert(rest[0].contains(kept[0]) && rest[1].contains(kept[0]));
    }
}

/// Calling `fill_smallests` a second time changes nothing and returns `false`: after the first
/// call the free cells form one zone, or none when every cell is a wall.
pub proof fn lemma_fill_smallests_idempotent(first: Maze, second: Maze, changed: bool, third: Maze, again: bool)
    requires
        first.wf(),
        second.spec_dim() == first.spec_dim(),
        second.spec_size() == first.spec_size(),
        keeps_largest(first, second, changed),
        keeps_largest(second, third, again),
    ensures
        !again,
        forall|c: Cell| #[trigger] third.wall(c) == second.wall(c),
        forall|zones: Seq<Seq<Cell>>| #[trigger] is_free_zoning(second, zones) ==> zones.len() <= 1,
{
    let (zs1, m1) = choose|zones: Seq<Seq<Cell>>, m: int|
        #![trigger is_free_zoning(first, zones), zones[m]]
        is_free_zoning(first, zones) && {
            &&& changed == (zones.len() > 1)
            &&& zones.len() == 0 ==> forall|c: Cell| #[trigger] second.wall(c) == first.wall(c)
            &&& zones.len() > 0 ==> {
                &&& 0 <= m < zones.len()
                &&& forall|i: int| 0 <= i < zones.len() ==> #[trigger] zones[i].len() <= zones[m].len()
                &&& forall|i: int| 0 <= i < m ==> #[trigger] zones[i].len() < zones[m].len()
                &&& forall|c: Cell| #[trigger]
                    second.wall(c) == (first.wall(c) || (in_bounds(c, first.spec_size()) && !zones[m].contains(c)))
            }
        };
    assert forall|zones: Seq<Seq<Cell>>| #[trigger] is_free_zoning(second, zones) implies zones.len() <= 1 by {
        if zs1.len() == 0 {
            if zones.len() > 0 {
                let a = zones[0][0];
                assert(zones[0].contains(a));
                assert(in_bounds(a, first.spec_size()) && !second.wall(a));
                let free_first = |c: Cell| !first.wall(c);
                assert(free_first(a));
                let i = choose|i: int| 0 <= i < zs1.len() && #[trigger] zs1[i].contains(a);
            }
        } else {
            lemma_one_zone_left(first, second, zs1, m1, zones);
        }
    }
    let (zs2, m2) = choose|zones: Seq<Seq<Cell>>, m: int|
        #![trigger is_free_zoning(second, zones), zones[m]]
        is_free_zoning(second, zones) && {
            &&& again == (zones.len() > 1)
            &&& zones.len() == 0 ==> forall|c: Cell| #[trigger] third.wall(c) == second.wall(c)
            &&& zones.len() > 0 ==> {
                &&& 0 <= m < zones.len()
                &&& forall|i: int| 0 <= i < zones.len() ==> #[trigger] zones[i].len() <= zones[m].len()
                &&& forall|i: int| 0 <= i < m ==> #[trigger] zones[i].len() < zones[m].len()
                &&& forall|c: Cell| #[trigger]
                    third.wall(c) == (second.wall(c) || (in_bounds(c, second.spec_size()) && !zones[m].contains(c)))
            }
        };
    assert(zs2.len() <= 1);
    if zs2.len() == 1 {
        assert forall|c: Cell| #[trigger] third.wall(c) == second.wall(c) by {
            if in_bounds(c, second.spec_size()) && !second.wall(c) {
                let free_second = |c: Cell| !second.wall(c);
                assert(free_second(c));
                let i = choose|i: int| 0 <= i < zs2.len() && #[trigger] zs2[i].contains(c);
                assert(i == 0 && m2 == 0);
            }
        }
    }
}

/// Some cell of `zone` is a dead end of `m`.
pub open spec fn zone_has_dead_end(m: Maze, zone: Seq<Cell>) -> bool {
    exists|j: int| 0 <= j < zone.len() && #[trigger] m.dead_end(zone[j])
}

/// `c` lies in one of the first `upto` zones of `zones` that holds a dead end of `m`.
pub open spec fn doomed_by(m: Maze, zones: Seq<Seq<Cell>>, upto: int, c: Cell) -> bool {
    exists|q: int| 0 <= q < upto && zone_has_dead_end(m, zones[q]) && #[trigger] zones[q].contains(c)
}

/// `after` is `before` with every cell of every corridor zone that holds a dead end walled.
pub open spec fn dead_corridor_step(before: Maze, after: Maze) -> bool {
    &&& after.spec_dim() == before.spec_dim()
    &&& after.spec_size() == before.spec_size()
    &&& exists|zones: Seq<Seq<Cell>>|
        #[trigger] crate::zones::is_corridor_zoning(before, zones) && forall|c: Cell| #[trigger]
            after.wall(c) == (before.wall(c) || doomed_by(before, zones, zones.len() as int, c))
}

/// `trail` goes from `first` to `last` by steps that wall the corridor zones holding a dead end.
pub open spec fn dead_corridor_trail(trail: Seq<Maze>, first: Maze, last: Maze) -> bool {
    &&& trail.len() >= 1
    &&& trail[0] == first
    &&& trail.last() == last
    &&& forall|i: int| 0 <= i < trail.len() - 1 ==> dead_corridor_step(#[trigger] trail[i], trail[i + 1])
}

impl Maze {
    /// How many of the first `k` unit steps from `c` lead to a wall.
    pub open spec fn wall_count(&self, c: Cell, k: int) -> nat
        decreases k,
    {
        if k <= 0 {
            0
        } else {
            self.wall_count(c, k - 1) + (if self.wall(shift(c, neighbour_offsets(self.spec_dim())[k - 1])) {
                1nat
            } else {
                0
            })
        }
    }

    /// `c` has walls on all sides but at most one.
    pub open spec fn dead_end(&self, c: Cell) -> bool {
        self.wall_count(c, neighbour_offsets(self.spec_dim()).len() as int) + 1 >= neighbour_offsets(
            self.spec_dim(),
        ).len()
    }

    /// No corridor cell of the grid is a dead end.
    pub open spec fn no_dead_end(&self) -> bool {
        forall|c: Cell| in_bounds(c, self.spec_size()) && #[trigger] self.corridor(c) ==> !self.dead_end(c)
    }

    /// The number of walls one unit step away from `c`.
    pub fn count_wall_neighbours(&self, c: &Cell) -> (r: usize)
        requires
            self.wf(),
            near_cell(*c),
        ensures
            r == self.wall_count(*c, neighbour_offsets(self.spec_dim()).len() as int),
            r <= neighbour_offsets(self.spec_dim()).len(),
    {
        let mut count: usize = 0;
        let mut k: usize = 0;
        while k < self.neighbours.len()
            invariant
                self.wf(),
                near_cell(*c),
                k <= self.neighbours@.len(),
                count == self.wall_count(*c, k as int),
                count <= k,
            decreases self.neighbours@.len() - k,
        {
            if self.is_wall(&c.plus(&self.neighbours[k])) {
                count = count + 1;
            }
            k = k + 1;
        }
        count
    }

    /// Walls, again and again, every corridor zone that holds a dead end, until no corridor cell
    /// is a dead end: the result is the end of a trail of such steps from the maze, each a
    /// `dead_corridor_step`. Returns whether a step was taken, that is whether a cell was walled.
    pub fn fill_dead_corridors(&mut self) -> (changed: bool)
        requires
            old(self).wf(),
        ensures
            final(self).wf(),
            final(self).spec_dim() == old(self).spec_dim(),
            final(self).spec_size() == old(self).spec_size(),
            forall|c: Cell| #[trigger] old(self).wall(c) ==> final(self).wall(c),
            changed == exists|c: Cell| #[trigger] final(self).wall(c) && !old(self).wall(c),
            forall|c: Cell|
                in_bounds(c, final(self).spec_size()) && #[trigger] final(self).corridor(c) ==> !final(self).dead_end(c),
            old(self).no_dead_end() ==> !changed,
            exists|trail: Seq<Maze>|
                #[trigger] dead_corridor_trail(trail, *old(self), *final(self)) && (changed <==> trail.len() > 1),
    {
        let ghost before = *self;
        let ghost mut trail: Seq<Maze> = seq![*self];
        let mut changed = false;
        let mut go = true;
        while go
            invariant
                self.wf(),
                self.dim == before.dim,
                self.size == before.size,
                forall|c: Cell| #[trigger] before.wall(c) ==> self.wall(c),
                changed == exists|c: Cell| #[trigger] self.wall(c) && !before.wall(c),
                !go ==> forall|c: Cell| in_bounds(c, self.size) && #[trigger] self.corridor(c) ==> !self.dead_end(c),
                before.no_dead_end() ==> *self == before && !changed,
                dead_corridor_trail(trail, before, *self),
                changed <==> trail.len() > 1,
            decreases self.free_cells() + (if go { 1nat } else { 0nat }),
        {
            let ghost start = *self;
            let corridors = self.compute_corridor_zones();
            let ghost zs = zones_view(corridors@);
            let mut doomed: Vec<Cell> = Vec::new();
            let mut i: usize = 0;
            while i < corridors.len()
                invariant
                    self.wf(),
                    *self == start,
                    zs == zones_view(corridors@),
                    is_zoning(self.dim, self.size, |c: Cell| self.corridor(c), zs),
                    i <= corridors@.len(),
                    forall|j: int| 0 <= j < doomed@.len() ==> self.corridor(#[trigger] doomed@[j]) && in_bounds(doomed@[j], self.size),
                    doomed@.len() == 0 ==> forall|q: int, c: Cell|
                        0 <= q < i && #[trigger] zs[q].contains(c) ==> !self.dead_end(c),
                    doomed@.len() > 0 ==> !self.no_dead_end(),
                    forall|c: Cell| #[trigger] doomed@.contains(c) <==> doomed_by(*self, zs, i as int, c),
                decreases corridors@.len() - i,
            {
                let zone = &corridors[i];
                assert(zs[i as int] == zone@);
                let mut dead = false;
                let mut p: usize = 0;
                while p < zone.len()
                    invariant
                        self.wf(),
                        *self == start,
                        zs[i as int] == zone@,
                        0 <= i < zs.len(),
                        is_zoning(self.dim, self.size, |c: Cell| self.corridor(c), zs),
                        p <= zone@.len(),
                        !dead ==> forall|j: int| 0 <= j < p ==> !self.dead_end(#[trigger] zone@[j]),
                        dead ==> !self.no_dead_end(),
                        dead ==> zone_has_dead_end(*self, zone@),
                    decreases zone@.len() - p,
                {
                    assert(zs[i as int].contains(zone@[p as int]));
                    let c = zone[p];
                    if self.count_wall_neighbours(&c) + 1 >= self.neighbours.len() {
                        dead = true;
                        proof {
                            let accept = |c: Cell| self.corridor(c);
                            assert(accept(c));
                            assert(in_bounds(c, self.size) && self.corridor(c) && self.dead_end(c));
                            assert(self.dead_end(zone@[p as int]));
                        }
                    }
                    p = p + 1;
                }
                if dead {
                    let mut p: usize = 0;
                    while p < zone.len()
                        invariant
                            self.wf(),
                            *self == start,
                            zs[i as int] == zone@,
                            0 <= i < zs.len(),
                            is_zoning(self.dim, self.size, |c: Cell| self.corridor(c), zs),
                            p <= zone@.len(),
                            forall|j: int| 0 <= j < doomed@.len() ==> self.corridor(#[trigger] doomed@[j]) && in_bounds(doomed@[j], self.size),
                            zone@.len() > 0,
                            p > 0 ==> doomed@.len() > 0,
                            !self.no_dead_end(),
                            zone_has_dead_end(*self, zone@),
                            forall|c: Cell| #[trigger] doomed@.contains(c) <==> doomed_by(*self, zs, i as int, c) || exists|j: int|
                                0 <= j < p && zone@[j] == c,
                        decreases zone@.len() - p,
                    {
                        assert(zs[i as int].contains(zone@[p as int]));
                        let ghost db = doomed@;
                        doomed.push(zone[p]);
                        proof {
                            assert forall|c: Cell| #[trigger] doomed@.contains(c) <==> doomed_by(*self, zs, i as int, c) || exists|j: int|
                                0 <= j < p + 1 && zone@[j] == c by {
                                if doomed@.contains(c) && c != zone@[p as int] {
                                    let j = choose|j: int| 0 <= j < doomed@.len() && doomed@[j] == c;
                                    assert(db[j] == c);
                                    assert(db.contains(c));
                                }
                                if doomed_by(*self, zs, i as int, c) || exists|j: int| 0 <= j < p && zone@[j] == c {
                                    assert(db.contains(c));
                                    let j = choose|j: int| 0 <= j < db.len() && db[j] == c;
                                    assert(doomed@[j] == c);
                                }
                                if c == zone@[p as int] {
                                    assert(doomed@[doomed@.len() - 1] == c);
                                }
                            }
                        }
                        p = p + 1;
                    }
                }
                proof {
                    assert forall|c: Cell| #[trigger] doomed@.contains(c) <==> doomed_by(*self, zs, i + 1, c) by {
                        if doomed_by(*self, zs, i + 1, c) {
                            let q = choose|q: int| 0 <= q < i + 1 && zone_has_dead_end(*self, zs[q]) && #[trigger] zs[q].contains(c);
                            if q == i {
                                assert(dead) by {
                                    if !dead {
                                        let j = choose|j: int| 0 <= j < zone@.len() && #[trigger] self.dead_end(zone@[j]);
                                    }
                                }
                                let j = choose|j: int| 0 <= j < zone@.len() && zone@[j] == c;
                            }
                        }
                        if doomed@.contains(c) && !doomed_by(*self, zs, i as int, c) {
                            assert(zs[i as int].contains(c));
                        }
                    }
                    if doomed@.len() == 0 {
                        assert forall|q: int, c: Cell| 0 <= q < i + 1 && #[trigger] zs[q].contains(c) implies !self.dead_end(c) by {
                            if q == i {
                                let j = choose|j: int| 0 <= j < zone@.len() && zone@[j] == c;
                            }
                        }
                    }
                }
                i = i + 1;
            }
            if doomed.len() == 0 {
                go = false;
                proof {
                    assert forall|c: Cell| in_bounds(c, self.size) && #[trigger] self.corridor(c) implies !self.dead_end(c) by {
                        let accept = |c: Cell| self.corridor(c);
                        assert(accept(c));
                        let q = choose|q: int| 0 <= q < zs.len() && #[trigger] zs[q].contains(c);
                    }
                }
            } else {
                let ghost first = doomed@[0];
                assert(self.corridor(doomed@[0]));
                let mut p: usize = 0;
                while p < doomed.len()
                    invariant
                        self.wf(),
                        self.dim == before.dim,
                        self.size == before.size,
                        forall|c: Cell| #[trigger] start.wall(c) ==> self.wall(c),
                        forall|j: int| 0 <= j < doomed@.len() ==> in_bounds(#[trigger] doomed@[j], self.size),
                        doomed@.len() > 0,
                        first == doomed@[0],
                        !start.wall(first),
                        p <= doomed@.len(),
                        p == 0 ==> *self == start,
                        p > 0 ==> self.free_cells() < start.free_cells() && self.wall(first),
                        forall|c: Cell| #[trigger] self.wall(c) == (start.wall(c) || exists|j: int| 0 <= j < p && doomed@[j] == c),
                    decreases doomed@.len() - p,
                {
                    let ghost mid = *self;
                    self.set_wall(&doomed[p]);
                    proof {
                        assert forall|c: Cell| #[trigger] self.wall(c) == (start.wall(c) || exists|j: int| 0 <= j < p + 1 && doomed@[j] == c) by {
                            if c == doomed@[p as int] {
                                assert(exists|j: int| 0 <= j < p + 1 && doomed@[j] == c);
                            }
                        }
                    }
                    p = p + 1;
                }
                changed = true;
                proof {
                    assert(self.wall(first) && !before.wall(first));
                    assert forall|c: Cell| #[trigger] self.wall(c) == (start.wall(c) || doomed_by(start, zs, zs.len() as int, c)) by {
                        if doomed@.contains(c) {
                            let j = choose|j: int| 0 <= j < doomed@.len() && doomed@[j] == c;
                        }
                        if exists|j: int| 0 <= j < doomed@.len() && doomed@[j] == c {
                            assert(doomed@.contains(c));
                        }
                    }
                    assert(crate::zones::is_corridor_zoning(start, zs));
                    assert(dead_corridor_step(start, *self));
                    let old_trail = trail;
                    trail = trail.push(*self);
                    assert forall|k: int| 0 <= k < trail.len() - 1 implies dead_corridor_step(#[trigger] trail[k], trail[k + 1]) by {
                        if k < old_trail.len() - 1 {
                            assert(trail[k] == old_trail[k] && trail[k + 1] == old_trail[k + 1]);
                        } else {
                            assert(trail[k] == start);
                        }
                    }
                }
            }
        }
        changed
    }
}

/// After one call of `fill_dead_corridors` no corridor zone holds a dead end, and a second call
/// returns `false`: looping on it until it returns `false` stops after the second call.
pub proof fn lemma_dead_corridors_fixed_point(after: Maze, again: bool, zones: Seq<Seq<Cell>>)
    requires
        forall|c: Cell| in_bounds(c, after.spec_size()) && #[trigger] after.corridor(c) ==> !after.dead_end(c),
        after.no_dead_end() ==> !again,
        crate::zones::is_corridor_zoning(after, zones),
    ensures
        !again,
        forall|i: int, c: Cell| 0 <= i < zones.len() && #[trigger] zones[i].contains(c) ==> !after.dead_end(c),
{
    assert forall|i: int, c: Cell| 0 <= i < zones.len() && #[trigger] zones[i].contains(c) implies !after.dead_end(c) by {
        let accept = |c: Cell| after.corridor(c);
        assert(in_bounds(c, after.spec_size()) && accept(c));
    }
}

} // verus!
