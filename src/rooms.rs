use vstd::prelude::*;
use crate::grid::{near_cell, shift, Cell};
use crate::maze::{neighbour_offsets, Maze};
use crate::zones::{is_corridor_zoning, is_room_zoning, zones_view};

verus! {

/// Whether `v` holds `c`.
pub fn contains_cell(v: &Vec<Cell>, c: &Cell) -> (r: bool)
    ensures
        r == v@.contains(*c),
{
    let mut i: usize = 0;
    while i < v.len()
        invariant
            i <= v@.len(),
            forall|j: int| 0 <= j < i ==> v@[j] != *c,
        decreases v@.len() - i,
    {
        if v[i] == *c {
            return true;
        }
        i = i + 1;
    }
    false
}

impl Maze {
    /// `e` is a free cell outside `zone`, one unit step away from a cell of `zone`.
    pub open spec fn exit(&self, zone: Seq<Cell>, e: Cell) -> bool {
        &&& !self.wall(e)
        &&& !zone.contains(e)
        &&& exists|q: int, k: int|
            0 <= q < zone.len() && 0 <= k < neighbour_offsets(self.spec_dim()).len() && e == #[trigger] shift(
                zone[q],
                neighbour_offsets(self.spec_dim())[k],
            )
    }

    /// `zone` has exactly one exit.
    pub open spec fn single_exit(&self, zone: Seq<Cell>) -> bool {
        exists|e: Cell| #[trigger] self.exit(zone, e) && forall|f: Cell| #[trigger] self.exit(zone, f) ==> f == e
    }

    /// A unit step away from `c` lies a corridor cell.
    pub open spec fn next_to_corridor(&self, c: Cell) -> bool {
        exists|k: int|
            0 <= k < neighbour_offsets(self.spec_dim()).len() && self.corridor(
                #[trigger] shift(c, neighbour_offsets(self.spec_dim())[k]),
            )
    }

    /// The exits of `zone`, each once.
    pub fn exits(&self, zone: &Vec<Cell>) -> (r: Vec<Cell>)
        requires
            self.wf(),
            forall|j: int| 0 <= j < zone@.len() ==> near_cell(#[trigger] zone@[j]),
        ensures
            r@.no_duplicates(),
            forall|e: Cell| r@.contains(e) <==> self.exit(zone@, e),
    {
        let mut r: Vec<Cell> = Vec::new();
        let mut p: usize = 0;
        while p < zone.len()
            invariant
                self.wf(),
                forall|j: int| 0 <= j < zone@.len() ==> near_cell(#[trigger] zone@[j]),
                p <= zone@.len(),
                r@.no_duplicates(),
                forall|e: Cell| r@.contains(e) ==> self.exit(zone@, e),
                forall|q: int, k: int|
                    0 <= q < p && 0 <= k < neighbour_offsets(self.dim).len() && self.exit(
                        zone@,
                        #[trigger] shift(zone@[q], neighbour_offsets(self.dim)[k]),
                    ) ==> r@.contains(shift(zone@[q], neighbour_offsets(self.dim)[k])),
            decreases zone@.len() - p,
        {
            let c = zone[p];
            let mut k: usize = 0;
            while k < self.neighbours.len()
                invariant
                    self.wf(),
                    forall|j: int| 0 <= j < zone@.len() ==> near_cell(#[trigger] zone@[j]),
                    p < zone@.len(),
                    c == zone@[p as int],
                    k <= self.neighbours@.len(),
                    r@.no_duplicates(),
                    forall|e: Cell| r@.contains(e) ==> self.exit(zone@, e),
                    forall|q: int, kk: int|
                        (0 <= q < p && 0 <= kk < neighbour_offsets(self.dim).len() || q == p && 0 <= kk < k)
                            && self.exit(zone@, #[trigger] shift(zone@[q], neighbour_offsets(self.dim)[kk]))
                            ==> r@.contains(shift(zone@[q], neighbour_offsets(self.dim)[kk])),
                decreases self.neighbours@.len() - k,
            {
                assert(near_cell(zone@[p as int]));
                let n = c.plus(&self.neighbours[k]);
                if !self.is_wall(&n) && !contains_cell(zone, &n) && !contains_cell(&r, &n) {
                    let ghost rb = r@;
                    r.push(n);
                    proof {
                        assert(self.exit(zone@, n));
                        assert forall|e: Cell| r@.contains(e) implies self.exit(zone@, e) by {
                            if e != n {
                                let j = choose|j: int| 0 <= j < r@.len() && r@[j] == e;
                                assert(rb[j] == e);
                                assert(rb.contains(e));
                            }
                        }
                        assert(r@[r@.len() - 1] == n);
                        assert forall|q: int, kk: int|
                            (0 <= q < p && 0 <= kk < neighbour_offsets(self.dim).len() || q == p && 0 <= kk < k + 1)
                                && self.exit(zone@, #[trigger] shift(zone@[q], neighbour_offsets(self.dim)[kk]))
                                implies r@.contains(shift(zone@[q], neighbour_offsets(self.dim)[kk])) by {
                            let x = shift(zone@[q], neighbour_offsets(self.dim)[kk]);
                            if x != n {
                                let j = choose|j: int| 0 <= j < rb.len() && rb[j] == x;
                                assert(r@[j] == x);
                            }
                        }
                    }
                }
                k = k + 1;
            }
            p = p + 1;
        }
        proof {
            assert forall|e: Cell| self.exit(zone@, e) implies r@.contains(e) by {
                let (q, k) = choose|q: int, k: int|
                    0 <= q < zone@.len() && 0 <= k < neighbour_offsets(self.dim).len() && e == #[trigger] shift(
                        zone@[q],
                        neighbour_offsets(self.dim)[k],
                    );
            }
        }
        r
    }

    /// Whether `zone` has exactly one exit.
    pub fn has_single_exit(&self, zone: &Vec<Cell>) -> (r: bool)
        requires
            self.wf(),
            forall|j: int| 0 <= j < zone@.len() ==> near_cell(#[trigger] zone@[j]),
        ensures
            r == self.single_exit(zone@),
    {
        let ex = self.exits(zone);
        proof {
            if ex@.len() == 1 {
                assert(ex@.contains(ex@[0]));
                assert forall|f: Cell| #[trigger] self.exit(zone@, f) implies f == ex@[0] by {
                    assert(ex@.contains(f));
                }
            } else if ex@.len() == 0 {
                assert forall|e: Cell| !#[trigger] self.exit(zone@, e) by {
                    if self.exit(zone@, e) {
                        assert(ex@.contains(e));
                    }
                }
            } else {
                assert(ex@[0] != ex@[1]);
                assert(ex@.contains(ex@[0]) && ex@.contains(ex@[1]));
                assert(self.exit(zone@, ex@[0]) && self.exit(zone@, ex@[1]));
            }
        }
        ex.len() == 1
    }
}

/// A copy of `v`.
pub fn copy_cells(v: &Vec<Cell>) -> (r: Vec<Cell>)
    ensures
        r@ == v@,
{
    let mut r: Vec<Cell> = Vec::new();
    let mut i: usize = 0;
    while i < v.len()
        invariant
            i <= v@.len(),
            r@ == v@.subrange(0, i as int),
        decreases v@.len() - i,
    {
        r.push(v[i]);
        i = i + 1;
        assert(r@ =~= v@.subrange(0, i as int));
    }
    assert(r@ =~= v@);
    r
}

/// `dead` holds exactly the zones of `rooms` with a single exit.
pub open spec fn dead_rooms_of(m: Maze, rooms: Seq<Seq<Cell>>, dead: Seq<Seq<Cell>>) -> bool {
    forall|z: Seq<Cell>| #[trigger] dead.contains(z) <==> rooms.contains(z) && m.single_exit(z)
}

impl Maze {
    /// The room zones with exactly one exit.
    pub fn compute_dead_room_zones(&self) -> (zones: Vec<Vec<Cell>>)
        requires
            self.wf(),
        ensures
            exists|rooms: Seq<Seq<Cell>>|
                #[trigger] is_room_zoning(*self, rooms) && dead_rooms_of(*self, rooms, zones_view(zones@)),
            zones_view(zones@).no_duplicates(),
    {
        let rooms = self.compute_room_zones();
        let ghost rz = zones_view(rooms@);
        let mut r: Vec<Vec<Cell>> = Vec::new();
        let mut i: usize = 0;
        while i < rooms.len()
            invariant
                self.wf(),
                rz == zones_view(rooms@),
                is_room_zoning(*self, rz),
                i <= rooms@.len(),
                forall|z: Seq<Cell>|
                    #[trigger] zones_view(r@).contains(z) <==> exists|q: int| 0 <= q < i && rz[q] == z && self.single_exit(z),
                zones_view(r@).no_duplicates(),
            decreases rooms@.len() - i,
        {
            assert(rz[i as int] == rooms@[i as int]@);
            assert forall|j: int| 0 <= j < rooms@[i as int]@.len() implies near_cell(#[trigger] rooms@[i as int]@[j]) by {
                assert(rz[i as int].contains(rooms@[i as int]@[j]));
            }
            let ghost before = zones_view(r@);
            if self.has_single_exit(&rooms[i]) {
                proof {
                    if before.contains(rz[i as int]) {
                        let q = choose|q: int| 0 <= q < i && rz[q] == rz[i as int] && self.single_exit(rz[i as int]);
                        assert(rz[i as int].len() > 0);
                        let c = rz[i as int][0];
                        assert(rz[i as int].contains(c));
                        assert(rz[q].contains(c));
                        assert(crate::zones::zones_disjoint(rz));
                    }
                }
                r.push(copy_cells(&rooms[i]));
                assert(zones_view(r@) =~= before.push(rooms@[i as int]@));
                proof {
                    assert forall|a: int, b: int|
                        0 <= a < zones_view(r@).len() && 0 <= b < zones_view(r@).len() && a != b implies zones_view(r@)[a]
                            != zones_view(r@)[b] by {
                        if a < before.len() && b < before.len() {
                            assert(zones_view(r@)[a] == before[a] && zones_view(r@)[b] == before[b]);
                        } else if a < before.len() {
                            assert(before.contains(before[a]));
                        } else if b < before.len() {
                            assert(before.contains(before[b]));
                        }
                    }
                }
            }
            proof {
                assert forall|z: Seq<Cell>|
                    #[trigger] zones_view(r@).contains(z) <==> exists|q: int| 0 <= q < i + 1 && rz[q] == z && self.single_exit(z) by {
                    if zones_view(r@).contains(z) && z != rz[i as int] {
                        let j = choose|j: int| 0 <= j < zones_view(r@).len() && zones_view(r@)[j] == z;
                        assert(before[j] == z);
                        assert(before.contains(z));
                    }
                    if exists|q: int| 0 <= q < i && rz[q] == z && self.single_exit(z) {
                        assert(before.contains(z));
                        let j = choose|j: int| 0 <= j < before.len() && before[j] == z;
                        assert(zones_view(r@)[j] == z);
                    }
                    if z == rz[i as int] && self.single_exit(z) {
                        assert(zones_view(r@)[zones_view(r@).len() - 1] == z);
                    }
                }
            }
            i = i + 1;
        }
        proof {
            assert forall|z: Seq<Cell>| #[trigger] zones_view(r@).contains(z) <==> rz.contains(z) && self.single_exit(z) by {
                if rz.contains(z) && self.single_exit(z) {
                    let q = choose|q: int| 0 <= q < rz.len() && rz[q] == z;
                }
            }
            assert(is_room_zoning(*self, rz) && dead_rooms_of(*self, rz, zones_view(r@)));
        }
        r
    }

    /// Walls every cell of every room zone with exactly one exit. Returns whether a cell was walled.
    pub fn fill_dead_rooms(&mut self) -> (changed: bool)
        requires
            old(self).wf(),
        ensures
            final(self).wf(),
            final(self).spec_dim() == old(self).spec_dim(),
            final(self).spec_size() == old(self).spec_size(),
            exists|rooms: Seq<Seq<Cell>>|
                #[trigger] is_room_zoning(*old(self), rooms) && {
                    &&& changed == exists|z: Seq<Cell>| #[trigger] rooms.contains(z) && old(self).single_exit(z)
                    &&& forall|c: Cell| #[trigger]
                        final(self).wall(c) == (old(self).wall(c) || exists|z: Seq<Cell>|
                            #[trigger] rooms.contains(z) && old(self).single_exit(z) && z.contains(c))
                },
    {
        let ghost before = *self;
        let dead = self.compute_dead_room_zones();
        let ghost dz = zones_view(dead@);
        let ghost rooms = choose|rooms: Seq<Seq<Cell>>|
            #[trigger] is_room_zoning(before, rooms) && dead_rooms_of(before, rooms, dz);
        let mut changed = false;
        let mut i: usize = 0;
        while i < dead.len()
            invariant
                self.wf(),
                self.dim == before.dim,
                self.size == before.size,
                dz == zones_view(dead@),
                is_room_zoning(before, rooms),
                dead_rooms_of(before, rooms, dz),
                i <= dead@.len(),
                changed == (i > 0),
                forall|c: Cell| #[trigger]
                    self.wall(c) == (before.wall(c) || exists|q: int| 0 <= q < i && #[trigger] dz[q].contains(c)),
            decreases dead@.len() - i,
        {
            let zone = &dead[i];
            assert(dz[i as int] == zone@);
            assert(dz.contains(zone@));
            assert(rooms.contains(zone@));
            let ghost mid = *self;
            let mut p: usize = 0;
            while p < zone.len()
                invariant
                    self.wf(),
                    self.dim == before.dim,
                    self.size == before.size,
                    is_room_zoning(before, rooms),
                    rooms.contains(zone@),
                    p <= zone@.len(),
                    forall|c: Cell| #[trigger] self.wall(c) == (mid.wall(c) || exists|j: int| 0 <= j < p && zone@[j] == c),
                decreases zone@.len() - p,
            {
                proof {
                    let k = choose|k: int| 0 <= k < rooms.len() && rooms[k] == zone@;
                    assert(rooms[k].contains(zone@[p as int]));
                }
                self.set_wall(&zone[p]);
                proof {
                    assert forall|c: Cell| #[trigger] self.wall(c) == (mid.wall(c) || exists|j: int| 0 <= j < p + 1 && zone@[j] == c) by {
                        if c == zone@[p as int] {
                            assert(exists|j: int| 0 <= j < p + 1 && zone@[j] == c);
                        }
                    }
                }
                p = p + 1;
            }
            proof {
                assert(zone@.len() > 0) by {
                    let k = choose|k: int| 0 <= k < rooms.len() && rooms[k] == zone@;
                }
                assert forall|c: Cell| #[trigger]
                    self.wall(c) == (before.wall(c) || exists|q: int| 0 <= q < i + 1 && #[trigger] dz[q].contains(c)) by {
                    if dz[i as int].contains(c) {
                        let j = choose|j: int| 0 <= j < zone@.len() && zone@[j] == c;
                        assert(exists|jj: int| 0 <= jj < p && zone@[jj] == c);
                    }
                    if exists|jj: int| 0 <= jj < p && zone@[jj] == c {
                        assert(dz[i as int].contains(c));
                    }
                }
            }
            changed = true;
            i = i + 1;
        }
        proof {
            assert forall|c: Cell| #[trigger]
                self.wall(c) == (before.wall(c) || exists|z: Seq<Cell>|
                    #[trigger] rooms.contains(z) && before.single_exit(z) && z.contains(c)) by {
                if exists|q: int| 0 <= q < dz.len() && #[trigger] dz[q].contains(c) {
                    let q = choose|q: int| 0 <= q < dz.len() && #[trigger] dz[q].contains(c);
                    assert(dz.contains(dz[q]));
                }
                if exists|z: Seq<Cell>| #[trigger] rooms.contains(z) && before.single_exit(z) && z.contains(c) {
                    let z = choose|z: Seq<Cell>| #[trigger] rooms.contains(z) && before.single_exit(z) && z.contains(c);
                    assert(dz.contains(z));
                    let q = choose|q: int| 0 <= q < dz.len() && dz[q] == z;
                    assert(dz[q].contains(c));
                }
            }
            if exists|z: Seq<Cell>| #[trigger] rooms.contains(z) && before.single_exit(z) {
                let z = choose|z: Seq<Cell>| #[trigger] rooms.contains(z) && before.single_exit(z);
                assert(dz.contains(z));
            }
            if dz.len() > 0 {
                assert(dz.contains(dz[0]));
            }
        }
        changed
    }
}

/// `whole` is the dead room `room` together with the corridor zone of `corridors` that holds its exit.
pub open spec fn room_with_corridor(m: Maze, corridors: Seq<Seq<Cell>>, room: Seq<Cell>, whole: Seq<Cell>) -> bool {
    forall|c: Cell|
        #[trigger] whole.contains(c) <==> (room.contains(c) || exists|q: int, e: Cell|
            0 <= q < corridors.len() && m.exit(room, e) && #[trigger] corridors[q].contains(e) && corridors[q].contains(c))
}

impl Maze {
    /// The room zones, each without its cells next to a corridor cell.
    pub fn compute_inner_room_zones(&self) -> (zones: Vec<Vec<Cell>>)
        requires
            self.wf(),
        ensures
            exists|rooms: Seq<Seq<Cell>>|
                #[trigger] is_room_zoning(*self, rooms) && zones@.len() == rooms.len() && forall|i: int, c: Cell|
                    0 <= i < rooms.len() ==> (#[trigger] zones@[i]@.contains(c) <==> rooms[i].contains(c)
                        && !self.next_to_corridor(c)),
    {
        let rooms = self.compute_room_zones();
        let ghost rz = zones_view(rooms@);
        let mut r: Vec<Vec<Cell>> = Vec::new();
        let mut i: usize = 0;
        while i < rooms.len()
            invariant
                self.wf(),
                rz == zones_view(rooms@),
                is_room_zoning(*self, rz),
                i <= rooms@.len(),
                r@.len() == i,
                forall|q: int, c: Cell|
                    0 <= q < i ==> (#[trigger] r@[q]@.contains(c) <==> rz[q].contains(c) && !self.next_to_corridor(c)),
            decreases rooms@.len() - i,
        {
            let room = &rooms[i];
            assert(rz[i as int] == room@);
            let mut inner: Vec<Cell> = Vec::new();
            let mut p: usize = 0;
            while p < room.len()
                invariant
                    self.wf(),
                    rz[i as int] == room@,
                    0 <= i < rz.len(),
                    is_room_zoning(*self, rz),
                    p <= room@.len(),
                    forall|c: Cell|
                        #[trigger] inner@.contains(c) <==> (exists|j: int| 0 <= j < p && room@[j] == c) && !self.next_to_corridor(c),
                decreases room@.len() - p,
            {
                let c = room[p];
                assert(rz[i as int].contains(c));
                let ghost ib = inner@;
                if !self.is_neighbouring_corridor(&c) {
                    inner.push(c);
                }
                proof {
                    assert forall|x: Cell|
                        #[trigger] inner@.contains(x) <==> (exists|j: int| 0 <= j < p + 1 && room@[j] == x) && !self.next_to_corridor(x) by {
                        if x == c && !self.next_to_corridor(c) {
                            assert(inner@[inner@.len() - 1] == c);
                        }
                        if inner@.contains(x) && x != c {
                            let j = choose|j: int| 0 <= j < inner@.len() && inner@[j] == x;
                            assert(ib[j] == x);
                            assert(ib.contains(x));
                        }
                        if (exists|j: int| 0 <= j < p && room@[j] == x) && !self.next_to_corridor(x) {
                            assert(ib.contains(x));
                            let j = choose|j: int| 0 <= j < ib.len() && ib[j] == x;
                            assert(inner@[j] == x);
                        }
                    }
                }
                p = p + 1;
            }
            let ghost rb = r@;
            r.push(inner);
            proof {
                assert forall|q: int, c: Cell|
                    0 <= q < i + 1 implies (#[trigger] r@[q]@.contains(c) <==> rz[q].contains(c) && !self.next_to_corridor(c)) by {
                    if q < i {
                        assert(r@[q] == rb[q]);
                    } else {
                        if rz[q].contains(c) {
                            let j = choose|j: int| 0 <= j < room@.len() && room@[j] == c;
                        }
                    }
                }
            }
            i = i + 1;
        }
        r
    }

    /// Each dead room together with the corridor zone that its single exit leads into.
    pub fn compute_dead_room_and_corridor_zones(&self) -> (zones: Vec<Vec<Cell>>)
        requires
            self.wf(),
        ensures
            exists|rooms: Seq<Seq<Cell>>, corridors: Seq<Seq<Cell>>, dead: Seq<Seq<Cell>>|
                #![trigger is_room_zoning(*self, rooms), is_corridor_zoning(*self, corridors), dead_rooms_of(*self, rooms, dead)]
                is_room_zoning(*self, rooms) && is_corridor_zoning(*self, corridors) && dead_rooms_of(*self, rooms, dead)
                    && dead.no_duplicates() && zones@.len() == dead.len() && forall|i: int|
                    0 <= i < dead.len() ==> room_with_corridor(*self, corridors, dead[i], #[trigger] zones@[i]@),
    {
        let dead = self.compute_dead_room_zones();
        let ghost dz = zones_view(dead@);
        let ghost rooms = choose|rooms: Seq<Seq<Cell>>|
            #[trigger] is_room_zoning(*self, rooms) && dead_rooms_of(*self, rooms, dz);
        let corridors = self.compute_corridor_zones();
        let ghost cz = zones_view(corridors@);
        let mut r: Vec<Vec<Cell>> = Vec::new();
        let mut i: usize = 0;
        while i < dead.len()
            invariant
                self.wf(),
                dz == zones_view(dead@),
                cz == zones_view(corridors@),
                is_room_zoning(*self, rooms),
                dead_rooms_of(*self, rooms, dz),
                is_corridor_zoning(*self, cz),
                i <= dead@.len(),
                r@.len() == i,
                forall|q: int| 0 <= q < i ==> room_with_corridor(*self, cz, dz[q], #[trigger] r@[q]@),
            decreases dead@.len() - i,
        {
            let room = &dead[i];
            assert(dz[i as int] == room@);
            assert(dz.contains(room@));
            assert(rooms.contains(room@) && self.single_exit(room@));
            assert forall|j: int| 0 <= j < room@.len() implies near_cell(#[trigger] room@[j]) by {
                let k = choose|k: int| 0 <= k < rooms.len() && rooms[k] == room@;
                assert(rooms[k].contains(room@[j]));
            }
            let ex = self.exits(room);
            let mut whole = copy_cells(room);
            proof {
                let e = choose|e: Cell| #[trigger] self.exit(room@, e) && forall|f: Cell| #[trigger] self.exit(room@, f) ==> f == e;
                assert(ex@.contains(e));
            }
            let e = ex[0];
            assert(ex@.contains(ex@[0]));
            assert(self.exit(room@, e));
            let mut q: usize = 0;
            let mut found = false;
            while q < corridors.len() && !found
                invariant
                    cz == zones_view(corridors@),
                    q <= corridors@.len(),
                    !found ==> forall|j: int| 0 <= j < q ==> !#[trigger] cz[j].contains(e),
                    found ==> 0 < q && cz[q - 1].contains(e),
                decreases corridors@.len() - q, if found { 0int } else { 1int },
            {
                assert(cz[q as int] == corridors@[q as int]@);
                if contains_cell(&corridors[q], &e) {
                    found = true;
                }
                q = q + 1;
            }
            if found {
                let zone = &corridors[q - 1];
                assert(cz[q - 1] == zone@);
                let ghost wb = whole@;
                let mut p: usize = 0;
                while p < zone.len()
                    invariant
                        p <= zone@.len(),
                        whole@ == wb + zone@.subrange(0, p as int),
                    decreases zone@.len() - p,
                {
                    whole.push(zone[p]);
                    p = p + 1;
                    assert(whole@ =~= wb + zone@.subrange(0, p as int));
                }
                assert(whole@ =~= room@ + zone@);
            }
            proof {
                let z = room@;
                assert forall|c: Cell|
                    #[trigger] whole@.contains(c) <==> (z.contains(c) || exists|qq: int, ee: Cell|
                        0 <= qq < cz.len() && self.exit(z, ee) && #[trigger] cz[qq].contains(ee) && cz[qq].contains(c)) by {
                    if exists|qq: int, ee: Cell|
                        0 <= qq < cz.len() && self.exit(z, ee) && #[trigger] cz[qq].contains(ee) && cz[qq].contains(c) {
                        let (qq, ee) = choose|qq: int, ee: Cell|
                            0 <= qq < cz.len() && self.exit(z, ee) && #[trigger] cz[qq].contains(ee) && cz[qq].contains(c);
                        assert(ee == e);
                        if found {
                            assert(qq == q - 1);
                            assert(whole@ == z + cz[qq]);
                            let j = choose|j: int| 0 <= j < cz[qq].len() && cz[qq][j] == c;
                            assert(whole@[z.len() + j] == c);
                        } else {
                            assert(!cz[qq].contains(e));
                        }
                    }
                    if whole@.contains(c) && !z.contains(c) {
                        assert(found);
                        let j = choose|j: int| 0 <= j < whole@.len() && whole@[j] == c;
                        if j < z.len() {
                            assert(z[j] == c);
                        } else {
                            assert(cz[q - 1][j - z.len()] == c);
                            assert(cz[q - 1].contains(c));
                        }
                    }
                    if z.contains(c) {
                        let j = choose|j: int| 0 <= j < z.len() && z[j] == c;
                        assert(whole@[j] == c);
                    }
                }
                assert(room_with_corridor(*self, cz, z, whole@));
            }
            let ghost rb = r@;
            r.push(whole);
            proof {
                assert forall|qq: int| 0 <= qq < i + 1 implies room_with_corridor(*self, cz, dz[qq], #[trigger] r@[qq]@) by {
                    if qq < i {
                        assert(r@[qq] == rb[qq]);
                    }
                }
            }
            i = i + 1;
        }
        proof {
            assert(dz.no_duplicates());
            assert(is_room_zoning(*self, rooms) && is_corridor_zoning(*self, cz) && dead_rooms_of(*self, rooms, dz)
                && dz.no_duplicates() && r@.len() == dz.len() && forall|i: int|
                0 <= i < dz.len() ==> room_with_corridor(*self, cz, dz[i], #[trigger] r@[i]@));
        }
        r
    }
}

} // verus!
