use vstd::prelude::*;
use crate::grid::{
    cell_at, cell_of, in_bounds, in_grid, index, index_of, lemma_layout, shift,
    small_cell, volume, Cell, Dim, MAX_SIDE,
};
use crate::maze::{cell_count, neighbour_offsets, Maze};

verus! {

/// `b` is one unit step away from `a` along an axis of `dim`.
pub open spec fn adjacent(dim: Dim, a: Cell, b: Cell) -> bool {
    exists|k: int| 0 <= k < neighbour_offsets(dim).len() && b == #[trigger] shift(a, neighbour_offsets(dim)[k])
}

/// `w` is a non-empty sequence of cells of `zone`, each adjacent to the next.
pub open spec fn walk_within(dim: Dim, w: Seq<Cell>, zone: Seq<Cell>) -> bool {
    &&& w.len() > 0
    &&& forall|t: int| 0 <= t < w.len() ==> zone.contains(#[trigger] w[t])
    &&& forall|t: int| 0 <= t < w.len() - 1 ==> adjacent(dim, #[trigger] w[t], w[t + 1])
}

/// One can go from `a` to `b` by unit steps without leaving `zone`.
pub open spec fn linked_within(dim: Dim, zone: Seq<Cell>, a: Cell, b: Cell) -> bool {
    exists|w: Seq<Cell>| #[trigger] walk_within(dim, w, zone) && w[0] == a && w.last() == b
}

/// `c` belongs to one of `zones`.
pub open spec fn in_zones(zones: Seq<Seq<Cell>>, c: Cell) -> bool {
    exists|i: int| 0 <= i < zones.len() && #[trigger] zones[i].contains(c)
}

/// Each zone holds every accepted cell one unit step away from one of its cells.
pub open spec fn zones_closed(dim: Dim, size: Cell, accept: spec_fn(Cell) -> bool, zones: Seq<Seq<Cell>>) -> bool {
    forall|i: int, c: Cell, k: int|
        0 <= i < zones.len() && #[trigger] zones[i].contains(c) && 0 <= k < neighbour_offsets(dim).len() && in_bounds(
            #[trigger] shift(c, neighbour_offsets(dim)[k]),
            size,
        ) && accept(shift(c, neighbour_offsets(dim)[k])) ==> zones[i].contains(shift(c, neighbour_offsets(dim)[k]))
}

/// No cell lies in two zones.
pub open spec fn zones_disjoint(zones: Seq<Seq<Cell>>) -> bool {
    forall|i: int, j: int, c: Cell|
        0 <= i < zones.len() && 0 <= j < zones.len() && #[trigger] zones[i].contains(c) && #[trigger] zones[j].contains(
            c,
        ) ==> i == j
}

/// `zones` are the connected components of the cells of the grid that `accept` holds of:
/// non-empty, disjoint, covering every accepted cell, each closed under unit steps
/// to accepted cells and connected.
pub open spec fn is_zoning(dim: Dim, size: Cell, accept: spec_fn(Cell) -> bool, zones: Seq<Seq<Cell>>) -> bool {
    &&& forall|i: int| 0 <= i < zones.len() ==> #[trigger] zones[i].len() > 0 && zones[i].no_duplicates()
    &&& forall|i: int, c: Cell|
        0 <= i < zones.len() && #[trigger] zones[i].contains(c) ==> in_bounds(c, size) && accept(c)
    &&& forall|c: Cell| in_bounds(c, size) && #[trigger] accept(c) ==> in_zones(zones, c)
    &&& zones_disjoint(zones)
    &&& zones_closed(dim, size, accept, zones)
    &&& forall|i: int, c: Cell|
        0 <= i < zones.len() && #[trigger] zones[i].contains(c) ==> linked_within(dim, zones[i], zones[i][0], c)
}

/// `zones` are the zones of free cells of `m`.
pub open spec fn is_free_zoning(m: Maze, zones: Seq<Seq<Cell>>) -> bool {
    is_zoning(m.spec_dim(), m.spec_size(), |c: Cell| !m.wall(c), zones)
}

/// `zones` are the room zones of `m`.
pub open spec fn is_room_zoning(m: Maze, zones: Seq<Seq<Cell>>) -> bool {
    is_zoning(m.spec_dim(), m.spec_size(), |c: Cell| m.room(c), zones)
}

/// `zones` are the corridor zones of `m`.
pub open spec fn is_corridor_zoning(m: Maze, zones: Seq<Seq<Cell>>) -> bool {
    is_zoning(m.spec_dim(), m.spec_size(), |c: Cell| m.corridor(c), zones)
}

pub open spec fn zones_view(zones: Seq<Vec<Cell>>) -> Seq<Seq<Cell>> {
    zones.map_values(|z: Vec<Cell>| z@)
}

/// The number of unassigned entries of a labelling.
pub open spec fn unlabelled(s: Seq<usize>) -> nat
    decreases s.len(),
{
    if s.len() == 0 {
        0
    } else {
        unlabelled(s.drop_last()) + (if s.last() == 0 { 1nat } else { 0 })
    }
}

proof fn lemma_unlabelled_update(s: Seq<usize>, i: int, v: usize)
    requires
        0 <= i < s.len(),
        s[i] == 0,
        v != 0,
    ensures
        unlabelled(s.update(i, v)) + 1 == unlabelled(s),
    decreases s.len(),
{
    if i == s.len() - 1 {
        assert(s.update(i, v).drop_last() =~= s.drop_last());
    } else {
        assert(s.update(i, v).drop_last() =~= s.drop_last().update(i, v));
        lemma_unlabelled_update(s.drop_last(), i, v);
    }
}

/// Stepping back along the opposite axis direction returns to the start.
pub proof fn lemma_step_back(dim: Dim, c: Cell, k: int) -> (back: int)
    requires
        small_cell(c),
        0 <= k < neighbour_offsets(dim).len(),
    ensures
        0 <= back < neighbour_offsets(dim).len(),
        shift(shift(c, neighbour_offsets(dim)[k]), neighbour_offsets(dim)[back]) == c,
{
    if k % 2 == 0 {
        k + 1
    } else {
        k - 1
    }
}

pub proof fn lemma_adjacent_symmetric(dim: Dim, a: Cell, b: Cell)
    requires
        small_cell(a),
        adjacent(dim, a, b),
    ensures
        adjacent(dim, b, a),
{
    let k = choose|k: int| 0 <= k < neighbour_offsets(dim).len() && b == #[trigger] shift(a, neighbour_offsets(dim)[k]);
    let back = lemma_step_back(dim, a, k);
    assert(a == shift(b, neighbour_offsets(dim)[back]));
}

proof fn lemma_linked_grow(dim: Dim, zone: Seq<Cell>, bigger: Seq<Cell>, a: Cell, b: Cell)
    requires
        linked_within(dim, zone, a, b),
        forall|x: Cell| zone.contains(x) ==> bigger.contains(x),
    ensures
        linked_within(dim, bigger, a, b),
{
    let w = choose|w: Seq<Cell>| #[trigger] walk_within(dim, w, zone) && w[0] == a && w.last() == b;
    assert(walk_within(dim, w, bigger));
}

proof fn lemma_linked_step(dim: Dim, zone: Seq<Cell>, a: Cell, c: Cell, k: int)
    requires
        linked_within(dim, zone, a, c),
        0 <= k < neighbour_offsets(dim).len(),
        zone.contains(shift(c, neighbour_offsets(dim)[k])),
    ensures
        linked_within(dim, zone, a, shift(c, neighbour_offsets(dim)[k])),
{
    let w = choose|w: Seq<Cell>| #[trigger] walk_within(dim, w, zone) && w[0] == a && w.last() == c;
    let n = shift(c, neighbour_offsets(dim)[k]);
    let w2 = w.push(n);
    assert(adjacent(dim, c, n));
    assert forall|t: int| 0 <= t < w2.len() - 1 implies adjacent(dim, #[trigger] w2[t], w2[t + 1]) by {
        if t < w.len() - 1 {
            assert(w2[t] == w[t] && w2[t + 1] == w[t + 1]);
        }
    }
    assert forall|t: int| 0 <= t < w2.len() implies zone.contains(#[trigger] w2[t]) by {
        if t < w.len() {
            assert(w2[t] == w[t]);
        }
    }
    assert(walk_within(dim, w2, zone) && w2[0] == a && w2.last() == n);
}

/// Going from `a` to `b` by a walk inside `zone` and `b` in a zone of `zones` that is closed
/// under steps to cells of `zone`: `a` is in that zone too.
pub proof fn lemma_walk_stays_in_zone(
    dim: Dim,
    size: Cell,
    accept: spec_fn(Cell) -> bool,
    zones: Seq<Seq<Cell>>,
    i: int,
    w: Seq<Cell>,
    zone: Seq<Cell>,
)
    requires
        zones_closed(dim, size, accept, zones),
        size.x <= MAX_SIDE && size.y <= MAX_SIDE && size.z <= MAX_SIDE,
        0 <= i < zones.len(),
        walk_within(dim, w, zone),
        forall|x: Cell| zone.contains(x) ==> in_bounds(x, size) && accept(x),
        zones[i].contains(w.last()),
    ensures
        zones[i].contains(w[0]),
    decreases w.len(),
{
    if w.len() > 1 {
        let prev = w.drop_last();
        assert(zone.contains(w[w.len() - 1]));
        assert(zone.contains(w[w.len() - 2]));
        assert(adjacent(dim, w[w.len() - 2], w[w.len() - 1]));
        let a = w[w.len() - 2];
        let b = w[w.len() - 1];
        assert(in_bounds(b, size) && in_bounds(a, size));
        lemma_adjacent_symmetric(dim, a, b);
        let k = choose|k: int| 0 <= k < neighbour_offsets(dim).len() && a == #[trigger] shift(b, neighbour_offsets(dim)[k]);
        assert(zones[i].contains(a));
        assert forall|t: int| 0 <= t < prev.len() - 1 implies adjacent(dim, #[trigger] prev[t], prev[t + 1]) by {
            assert(prev[t] == w[t] && prev[t + 1] == w[t + 1]);
        }
        assert forall|t: int| 0 <= t < prev.len() implies zone.contains(#[trigger] prev[t]) by {
            assert(prev[t] == w[t]);
        }
        lemma_walk_stays_in_zone(dim, size, accept, zones, i, prev, zone);
    }
}

/// Every labelled cell with a label other than `id` shares its label with each accepted
/// cell one unit step away.
pub open spec fn closed_except(dim: Dim, size: Cell, mask: Seq<bool>, label: Seq<usize>, id: usize) -> bool {
    forall|c: Cell, k: int|
        in_bounds(c, size) && 0 <= k < neighbour_offsets(dim).len() && label[index_of(c, size)] != 0
            && label[index_of(c, size)] != id && in_bounds(#[trigger] shift(c, neighbour_offsets(dim)[k]), size)
            && mask[index_of(shift(c, neighbour_offsets(dim)[k]), size)] ==> label[index_of(
            shift(c, neighbour_offsets(dim)[k]),
            size,
        )] == label[index_of(c, size)]
}

/// Every accepted cell one unit step away from `c` carries label `id`.
pub open spec fn surrounded(dim: Dim, size: Cell, mask: Seq<bool>, label: Seq<usize>, id: usize, c: Cell) -> bool {
    forall|k: int|
        0 <= k < neighbour_offsets(dim).len() && in_bounds(#[trigger] shift(c, neighbour_offsets(dim)[k]), size)
            && mask[index_of(shift(c, neighbour_offsets(dim)[k]), size)] ==> label[index_of(
            shift(c, neighbour_offsets(dim)[k]),
            size,
        )] == id
}

/// The state of a flood fill that labels with `id` the zone grown from `seed`.
spec fn fill_state(
    m: Maze,
    mask: Seq<bool>,
    label: Seq<usize>,
    zone: Seq<Cell>,
    stack: Seq<Cell>,
    id: usize,
    seed: Cell,
    start: Seq<usize>,
) -> bool {
    &&& m.wf()
    &&& mask.len() == volume(m.size)
    &&& label.len() == volume(m.size)
    &&& start.len() == volume(m.size)
    &&& id >= 1
    &&& forall|c: Cell| in_bounds(c, m.size) ==> (label[index_of(c, m.size)] == id) == #[trigger] zone.contains(c)
    &&& forall|t: int| 0 <= t < volume(m.size) && #[trigger] label[t] != id ==> label[t] == start[t]
    &&& forall|t: int| 0 <= t < volume(m.size) && #[trigger] label[t] != 0 ==> mask[t]
    &&& forall|t: int| 0 <= t < volume(m.size) ==> #[trigger] label[t] <= id
    &&& forall|t: int| 0 <= t < volume(m.size) ==> #[trigger] start[t] < id
    &&& forall|t: int| 0 <= t < volume(m.size) && #[trigger] start[t] != 0 ==> label[t] == start[t]
    &&& zone.len() > 0
    &&& zone[0] == seed
    &&& zone.no_duplicates()
    &&& forall|c: Cell| #[trigger] zone.contains(c) ==> in_bounds(c, m.size)
    &&& forall|j: int| 0 <= j < stack.len() ==> zone.contains(#[trigger] stack[j])
    &&& closed_except(m.dim, m.size, mask, label, id)
    &&& forall|c: Cell| #[trigger] zone.contains(c) ==> linked_within(m.dim, zone, seed, c)
}

/// Every cell of `zone` but `c` is still to be expanded or has its accepted neighbours labelled `id`.
spec fn pending_or_surrounded(
    m: Maze,
    mask: Seq<bool>,
    label: Seq<usize>,
    zone: Seq<Cell>,
    stack: Seq<Cell>,
    id: usize,
    c: Cell,
) -> bool {
    forall|d: Cell| #[trigger] zone.contains(d) && d != c ==> stack.contains(d) || surrounded(m.dim, m.size, mask, label, id, d)
}

/// The accepted neighbours of `c` along the first `k` offsets carry label `id`.
spec fn expanded_up_to(m: Maze, mask: Seq<bool>, label: Seq<usize>, id: usize, c: Cell, k: int) -> bool {
    forall|j: int|
        0 <= j < k ==> {
            let n = #[trigger] shift(c, neighbour_offsets(m.dim)[j]);
            in_bounds(n, m.size) && mask[index_of(n, m.size)] ==> label[index_of(n, m.size)] == id
        }
}

proof fn lemma_push_labels(
    m: Maze,
    mask: Seq<bool>,
    label: Seq<usize>,
    zone: Seq<Cell>,
    stack: Seq<Cell>,
    id: usize,
    seed: Cell,
    start: Seq<usize>,
    c: Cell,
    k: int,
)
    requires
        fill_state(m, mask, label, zone, stack, id, seed, start),
        zone.contains(c),
        0 <= k < neighbour_offsets(m.dim).len(),
        in_bounds(shift(c, neighbour_offsets(m.dim)[k]), m.size),
        mask[index_of(shift(c, neighbour_offsets(m.dim)[k]), m.size)],
        label[index_of(shift(c, neighbour_offsets(m.dim)[k]), m.size)] == 0,
    ensures
        ({
            let n = shift(c, neighbour_offsets(m.dim)[k]);
            let l2 = label.update(index_of(n, m.size), id);
            let z2 = zone.push(n);
            &&& forall|x: Cell| in_bounds(x, m.size) ==> (l2[index_of(x, m.size)] == id) == #[trigger] z2.contains(x)
            &&& forall|t: int| 0 <= t < volume(m.size) && #[trigger] l2[t] != id ==> l2[t] == start[t]
            &&& forall|t: int| 0 <= t < volume(m.size) && #[trigger] start[t] != 0 ==> l2[t] == start[t]
            &&& forall|t: int| 0 <= t < volume(m.size) && #[trigger] l2[t] != 0 ==> mask[t]
            &&& forall|t: int| 0 <= t < volume(m.size) ==> #[trigger] l2[t] <= id
            &&& closed_except(m.dim, m.size, mask, l2, id)
            &&& l2.len() == volume(m.size)
        }),
{
    lemma_layout(m.size);
    let n = shift(c, neighbour_offsets(m.dim)[k]);
    let j = index_of(n, m.size);
    let l2 = label.update(j, id);
    let z2 = zone.push(n);
    assert forall|x: Cell| in_bounds(x, m.size) implies (l2[index_of(x, m.size)] == id) == #[trigger] z2.contains(x) by {
        if x == n {
            assert(z2[z2.len() - 1] == n);
        } else {
            if zone.contains(x) {
                let q = choose|q: int| 0 <= q < zone.len() && zone[q] == x;
                assert(z2[q] == x);
            }
            if z2.contains(x) {
                let q = choose|q: int| 0 <= q < z2.len() && z2[q] == x;
                assert(zone[q] == x);
            }
        }
    }
    assert forall|x: Cell, kk: int|
        in_bounds(x, m.size) && 0 <= kk < neighbour_offsets(m.dim).len() && l2[index_of(x, m.size)] != 0
            && l2[index_of(x, m.size)] != id && in_bounds(#[trigger] shift(x, neighbour_offsets(m.dim)[kk]), m.size)
            && mask[index_of(shift(x, neighbour_offsets(m.dim)[kk]), m.size)] implies l2[index_of(
            shift(x, neighbour_offsets(m.dim)[kk]),
            m.size,
        )] == l2[index_of(x, m.size)] by {
        assert(index_of(x, m.size) != j);
        let y = shift(x, neighbour_offsets(m.dim)[kk]);
        assert(label[index_of(y, m.size)] == label[index_of(x, m.size)]);
    }
}

proof fn lemma_push_zone(
    m: Maze,
    mask: Seq<bool>,
    label: Seq<usize>,
    zone: Seq<Cell>,
    stack: Seq<Cell>,
    id: usize,
    seed: Cell,
    start: Seq<usize>,
    c: Cell,
    k: int,
)
    requires
        fill_state(m, mask, label, zone, stack, id, seed, start),
        zone.contains(c),
        0 <= k < neighbour_offsets(m.dim).len(),
        in_bounds(shift(c, neighbour_offsets(m.dim)[k]), m.size),
        label[index_of(shift(c, neighbour_offsets(m.dim)[k]), m.size)] == 0,
    ensures
        ({
            let n = shift(c, neighbour_offsets(m.dim)[k]);
            let z2 = zone.push(n);
            let s2 = stack.push(n);
            &&& z2.len() > 0
            &&& z2[0] == seed
            &&& z2.no_duplicates()
            &&& z2.contains(c)
            &&& forall|x: Cell| #[trigger] z2.contains(x) ==> in_bounds(x, m.size)
            &&& forall|q: int| 0 <= q < s2.len() ==> z2.contains(#[trigger] s2[q])
            &&& forall|x: Cell| #[trigger] z2.contains(x) ==> linked_within(m.dim, z2, seed, x)
        }),
{
    lemma_layout(m.size);
    let n = shift(c, neighbour_offsets(m.dim)[k]);
    let z2 = zone.push(n);
    let s2 = stack.push(n);
    assert(z2[z2.len() - 1] == n);
    assert forall|x: Cell| #[trigger] zone.contains(x) implies z2.contains(x) by {
        let q = choose|q: int| 0 <= q < zone.len() && zone[q] == x;
        assert(z2[q] == x);
    }
    assert forall|x: Cell| #[trigger] z2.contains(x) implies x == n || zone.contains(x) by {
        let q = choose|q: int| 0 <= q < z2.len() && z2[q] == x;
        if q < zone.len() {
            assert(zone[q] == x);
        }
    }
    assert(!zone.contains(n));
    assert forall|x: Cell| #[trigger] z2.contains(x) implies linked_within(m.dim, z2, seed, x) by {
        if x == n {
            lemma_linked_grow(m.dim, zone, z2, seed, c);
            lemma_linked_step(m.dim, z2, seed, c, k);
        } else {
            lemma_linked_grow(m.dim, zone, z2, seed, x);
        }
    }
    assert forall|q: int| 0 <= q < s2.len() implies z2.contains(#[trigger] s2[q]) by {
        if q < stack.len() {
            assert(s2[q] == stack[q]);
            assert(zone.contains(stack[q]));
        }
    }
}

proof fn lemma_push_pending(
    m: Maze,
    mask: Seq<bool>,
    label: Seq<usize>,
    zone: Seq<Cell>,
    stack: Seq<Cell>,
    id: usize,
    seed: Cell,
    start: Seq<usize>,
    c: Cell,
    k: int,
)
    requires
        fill_state(m, mask, label, zone, stack, id, seed, start),
        pending_or_surrounded(m, mask, label, zone, stack, id, c),
        expanded_up_to(m, mask, label, id, c, k),
        zone.contains(c),
        0 <= k < neighbour_offsets(m.dim).len(),
        in_bounds(shift(c, neighbour_offsets(m.dim)[k]), m.size),
        label[index_of(shift(c, neighbour_offsets(m.dim)[k]), m.size)] == 0,
    ensures
        ({
            let n = shift(c, neighbour_offsets(m.dim)[k]);
            let l2 = label.update(index_of(n, m.size), id);
            &&& pending_or_surrounded(m, mask, l2, zone.push(n), stack.push(n), id, c)
            &&& expanded_up_to(m, mask, l2, id, c, k + 1)
        }),
{
    lemma_layout(m.size);
    let n = shift(c, neighbour_offsets(m.dim)[k]);
    let j = index_of(n, m.size);
    let l2 = label.update(j, id);
    let z2 = zone.push(n);
    let s2 = stack.push(n);
    assert forall|x: Cell| #[trigger] z2.contains(x) && x != c implies s2.contains(x) || surrounded(
        m.dim,
        m.size,
        mask,
        l2,
        id,
        x,
    ) by {
        if x == n {
            assert(s2[s2.len() - 1] == n);
        } else {
            let q = choose|q: int| 0 <= q < z2.len() && z2[q] == x;
            assert(zone[q] == x);
            if stack.contains(x) {
                let r = choose|r: int| 0 <= r < stack.len() && stack[r] == x;
                assert(s2[r] == x);
            } else {
                assert(zone.contains(x));
                assert(surrounded(m.dim, m.size, mask, label, id, x));
                assert forall|kk: int|
                    0 <= kk < neighbour_offsets(m.dim).len() && in_bounds(#[trigger] shift(x, neighbour_offsets(m.dim)[kk]), m.size)
                        && mask[index_of(shift(x, neighbour_offsets(m.dim)[kk]), m.size)] implies l2[index_of(
                        shift(x, neighbour_offsets(m.dim)[kk]),
                        m.size,
                    )] == id by {
                    let y = shift(x, neighbour_offsets(m.dim)[kk]);
                    assert(label[index_of(y, m.size)] == id);
                }
            }
        }
    }
    assert forall|jj: int| 0 <= jj < k + 1 implies {
        let y = #[trigger] shift(c, neighbour_offsets(m.dim)[jj]);
        in_bounds(y, m.size) && mask[index_of(y, m.size)] ==> l2[index_of(y, m.size)] == id
    } by {
        let y = shift(c, neighbour_offsets(m.dim)[jj]);
        if jj < k && in_bounds(y, m.size) && mask[index_of(y, m.size)] {
            assert(label[index_of(y, m.size)] == id);
        }
    }
}

impl Maze {
    /// Labels the `k`-th neighbour of `c` with `id` and queues it, if it is accepted and unlabelled.
    #[verifier::rlimit(100)]
    #[verifier::spinoff_prover]
    fn visit(
        &self,
        mask: &Vec<bool>,
        label: &mut Vec<usize>,
        zone: &mut Vec<Cell>,
        stack: &mut Vec<Cell>,
        c: Cell,
        k: usize,
        id: usize,
        Ghost(seed): Ghost<Cell>,
        Ghost(start): Ghost<Seq<usize>>,
    )
        requires
            fill_state(*self, mask@, old(label)@, old(zone)@, old(stack)@, id, seed, start),
            old(zone)@.contains(c),
            k < neighbour_offsets(self.dim).len(),
            pending_or_surrounded(*self, mask@, old(label)@, old(zone)@, old(stack)@, id, c),
            expanded_up_to(*self, mask@, old(label)@, id, c, k as int),
        ensures
            fill_state(*self, mask@, final(label)@, final(zone)@, final(stack)@, id, seed, start),
            final(zone)@.contains(c),
            pending_or_surrounded(*self, mask@, final(label)@, final(zone)@, final(stack)@, id, c),
            expanded_up_to(*self, mask@, final(label)@, id, c, k + 1),
            old(stack)@.len() <= final(stack)@.len(),
            forall|q: int| 0 <= q < old(stack)@.len() ==> #[trigger] final(stack)@[q] == old(stack)@[q],
            unlabelled(final(label)@) + (final(stack)@.len() - old(stack)@.len()) == unlabelled(old(label)@),
    {
        proof {
            lemma_layout(self.size);
        }
        assert(in_bounds(c, self.size));
        let d = self.neighbours[k];
        let n = c.plus(&d);
        if in_grid(&n, &self.size) {
            let j = index(&n, &self.size);
            if mask[j] && label[j] == 0 {
                let ghost lb = label@;
                let ghost zb = zone@;
                let ghost sb = stack@;
                label.set(j, id);
                zone.push(n);
                stack.push(n);
                proof {
                    lemma_unlabelled_update(lb, j as int, id);
                    assert(label@ == lb.update(j as int, id));
                    assert(zone@ == zb.push(n));
                    assert(stack@ == sb.push(n));
                    lemma_push_labels(*self, mask@, lb, zb, sb, id, seed, start, c, k as int);
                    lemma_push_zone(*self, mask@, lb, zb, sb, id, seed, start, c, k as int);
                    lemma_push_pending(*self, mask@, lb, zb, sb, id, seed, start, c, k as int);
                }
            } else if mask[j] {
                proof {
                    if label@[j as int] != id {
                        let back = lemma_step_back(self.dim, c, k as int);
                        assert(shift(n, neighbour_offsets(self.dim)[back]) == c);
                        assert(label@[index_of(c, self.size)] == id);
                    }
                }
            }
        }
    }

    /// Labels with `id` the cells connected to `seed` through accepted cells, and returns them.
    fn fill_zone(&self, mask: &Vec<bool>, label: &mut Vec<usize>, seed: Cell, id: usize) -> (zone: Vec<Cell>)
        requires
            self.wf(),
            mask@.len() == volume(self.size),
            old(label)@.len() == volume(self.size),
            in_bounds(seed, self.size),
            mask@[index_of(seed, self.size)],
            old(label)@[index_of(seed, self.size)] == 0,
            id >= 1,
            forall|t: int| 0 <= t < volume(self.size) ==> #[trigger] old(label)@[t] < id,
            forall|t: int| 0 <= t < volume(self.size) && #[trigger] old(label)@[t] != 0 ==> mask@[t],
            closed_except(self.dim, self.size, mask@, old(label)@, id),
        ensures
            final(label)@.len() == volume(self.size),
            forall|c: Cell| in_bounds(c, self.size) ==> (final(label)@[index_of(c, self.size)] == id) == #[trigger] zone@.contains(c),
            forall|t: int| 0 <= t < volume(self.size) && #[trigger] final(label)@[t] != id ==> final(label)@[t] == old(label)@[t],
            forall|t: int| 0 <= t < volume(self.size) && #[trigger] old(label)@[t] != 0 ==> final(label)@[t] == old(label)@[t],
            forall|t: int| 0 <= t < volume(self.size) && #[trigger] final(label)@[t] != 0 ==> mask@[t],
            forall|t: int| 0 <= t < volume(self.size) ==> #[trigger] final(label)@[t] <= id,
            zone@.len() > 0,
            zone@[0] == seed,
            zone@.no_duplicates(),
            forall|c: Cell| #[trigger] zone@.contains(c) ==> in_bounds(c, self.size),
            closed_except(self.dim, self.size, mask@, final(label)@, 0),
            forall|c: Cell| #[trigger] zone@.contains(c) ==> linked_within(self.dim, zone@, seed, c),
    {
        proof {
            lemma_layout(self.size);
        }
        let ghost start = label@;
        let si = index(&seed, &self.size);
        label.set(si, id);
        let mut zone: Vec<Cell> = vec![seed];
        let mut stack: Vec<Cell> = vec![seed];
        proof {
            let w = seq![seed];
            assert(walk_within(self.dim, w, zone@));
            assert(linked_within(self.dim, zone@, seed, seed));
            lemma_unlabelled_update(start, si as int, id);
            assert(stack@[0] == seed);
        }
        while stack.len() > 0
            invariant
                fill_state(*self, mask@, label@, zone@, stack@, id, seed, start),
                forall|c: Cell| #[trigger] zone@.contains(c) ==> stack@.contains(c) || surrounded(self.dim, self.size, mask@, label@, id, c),
            decreases unlabelled(label@), stack.len(),
        {
            let ghost st = stack@;
            let c = stack.pop().unwrap();
            let ghost popped = stack@;
            let ghost before = label@;
            proof {
                assert(st == popped.push(c));
                assert forall|d: Cell| #[trigger] zone@.contains(d) && d != c implies popped.contains(d) || surrounded(
                    self.dim,
                    self.size,
                    mask@,
                    label@,
                    id,
                    d,
                ) by {
                    if st.contains(d) {
                        let r = choose|r: int| 0 <= r < st.len() && st[r] == d;
                        assert(popped[r] == d);
                    }
                }
                assert(st[st.len() - 1] == c);
                assert(zone@.contains(c));
                assert forall|j: int| 0 <= j < popped.len() implies zone@.contains(#[trigger] popped[j]) by {
                    assert(popped[j] == st[j]);
                }
            }
            let mut k: usize = 0;
            while k < self.neighbours.len()
                invariant
                    fill_state(*self, mask@, label@, zone@, stack@, id, seed, start),
                    zone@.contains(c),
                    self.neighbours@.len() == neighbour_offsets(self.dim).len(),
                    k <= neighbour_offsets(self.dim).len(),
                    pending_or_surrounded(*self, mask@, label@, zone@, stack@, id, c),
                    expanded_up_to(*self, mask@, label@, id, c, k as int),
                    popped.len() <= stack@.len(),
                    forall|q: int| 0 <= q < popped.len() ==> #[trigger] stack@[q] == popped[q],
                    unlabelled(label@) + (stack@.len() - popped.len()) == unlabelled(before),
                decreases neighbour_offsets(self.dim).len() - k,
            {
                self.visit(mask, label, &mut zone, &mut stack, c, k, id, Ghost(seed), Ghost(start));
                k = k + 1;
            }
            proof {
                assert(surrounded(self.dim, self.size, mask@, label@, id, c));
                assert forall|x: Cell| #[trigger] zone@.contains(x) implies stack@.contains(x) || surrounded(self.dim, self.size, mask@, label@, id, x) by {
                    if x != c && !surrounded(self.dim, self.size, mask@, label@, id, x) {
                        assert(stack@.contains(x));
                    }
                }
            }
        }
        proof {
            assert forall|x: Cell, k: int|
                in_bounds(x, self.size) && 0 <= k < neighbour_offsets(self.dim).len() && label@[index_of(x, self.size)] != 0
                    && label@[index_of(x, self.size)] != 0 && in_bounds(#[trigger] shift(x, neighbour_offsets(self.dim)[k]), self.size)
                    && mask@[index_of(shift(x, neighbour_offsets(self.dim)[k]), self.size)] implies label@[index_of(
                    shift(x, neighbour_offsets(self.dim)[k]),
                    self.size,
                )] == label@[index_of(x, self.size)] by {
                if label@[index_of(x, self.size)] == id {
                    assert(zone@.contains(x));
                    assert(surrounded(self.dim, self.size, mask@, label@, id, x));
                }
            }
        }
        zone
    }
}

impl Maze {
    /// The connected components of the cells whose entry in `mask` is set.
    pub(crate) fn zones_of_mask(&self, mask: &Vec<bool>) -> (zones: Vec<Vec<Cell>>)
        requires
            self.wf(),
            mask@.len() == volume(self.size),
        ensures
            is_zoning(self.dim, self.size, |c: Cell| mask@[index_of(c, self.size)], zones_view(zones@)),
    {
        proof {
            lemma_layout(self.size);
        }
        let n = cell_count(&self.size);
        let mut label: Vec<usize> = Vec::new();
        let mut i: usize = 0;
        while i < n
            invariant
                i <= n,
                label@.len() == i,
                forall|t: int| 0 <= t < i ==> #[trigger] label@[t] == 0,
            decreases n - i,
        {
            label.push(0);
            i = i + 1;
        }
        let mut zones: Vec<Vec<Cell>> = Vec::new();
        let mut t: usize = 0;
        while t < n
            invariant
                self.wf(),
                n == volume(self.size),
                t <= n,
                mask@.len() == n,
                label@.len() == n,
                zones@.len() < n + 1 || t == n,
                zones@.len() <= t,
                forall|u: int| 0 <= u < n ==> #[trigger] label@[u] <= zones@.len(),
                forall|u: int| 0 <= u < n && #[trigger] label@[u] != 0 ==> mask@[u],
                forall|c: Cell|
                    in_bounds(c, self.size) && label@[index_of(c, self.size)] != 0 ==> #[trigger] zones@[label@[index_of(
                        c,
                        self.size,
                    )] - 1]@.contains(c),
                forall|q: int, c: Cell|
                    0 <= q < zones@.len() && #[trigger] zones@[q]@.contains(c) ==> in_bounds(c, self.size) && label@[index_of(
                        c,
                        self.size,
                    )] == q + 1,
                forall|q: int|
                    0 <= q < zones@.len() ==> #[trigger] zones@[q]@.len() > 0 && zones@[q]@.no_duplicates(),
                forall|q: int, c: Cell|
                    0 <= q < zones@.len() && #[trigger] zones@[q]@.contains(c) ==> linked_within(
                        self.dim,
                        zones@[q]@,
                        zones@[q]@[0],
                        c,
                    ),
                closed_except(self.dim, self.size, mask@, label@, 0),
                forall|u: int| 0 <= u < t && #[trigger] mask@[u] ==> label@[u] != 0,
            decreases n - t,
        {
            proof {
                lemma_layout(self.size);
            }
            if mask[t] && label[t] == 0 {
                let seed = cell_at(t, &self.size);
                let id = zones.len() + 1;
                let ghost lb = label@;
                let ghost zb = zones@;
                assert(closed_except(self.dim, self.size, mask@, label@, id));
                let zone = self.fill_zone(mask, &mut label, seed, id);
                zones.push(zone);
                proof {
                    assert forall|q: int, c: Cell|
                        0 <= q < zones@.len() && #[trigger] zones@[q]@.contains(c) implies in_bounds(c, self.size)
                            && label@[index_of(c, self.size)] == q + 1 by {
                        if q < zb.len() {
                            assert(zones@[q] == zb[q]);
                            assert(zb[q]@.contains(c));
                            assert(in_bounds(c, self.size));
                            let u = index_of(c, self.size);
                            assert(lb[u] == q + 1);
                            assert(0 <= u < n);
                            assert(label@[u] == lb[u]);
                        } else {
                            assert(zones@[q]@ == zone@);
                            assert(in_bounds(c, self.size));
                            assert(label@[index_of(c, self.size)] == id);
                        }
                    }
                    assert forall|c: Cell|
                        in_bounds(c, self.size) && label@[index_of(c, self.size)] != 0 implies #[trigger] zones@[label@[index_of(
                            c,
                            self.size,
                        )] - 1]@.contains(c) by {
                        let u = index_of(c, self.size);
                        assert(0 <= u < n);
                        if label@[u] != id {
                            assert(label@[u] == lb[u]);
                            assert(lb[u] != 0);
                            let q = lb[u] - 1;
                            assert(zb[q]@.contains(c));
                            assert(zones@[q] == zb[q]);
                        } else {
                            assert(zones@[zb.len() as int] == zone);
                        }
                    }
                    assert forall|q: int, c: Cell|
                        0 <= q < zones@.len() && #[trigger] zones@[q]@.contains(c) implies linked_within(
                            self.dim,
                            zones@[q]@,
                            zones@[q]@[0],
                            c,
                        ) by {
                        if q < zb.len() {
                            assert(zb[q]@.contains(c));
                        }
                    }
                    assert forall|q: int| 0 <= q < zones@.len() implies #[trigger] zones@[q]@.len() > 0 && zones@[q]@.no_duplicates() by {
                        if q < zb.len() {
                            assert(zones@[q] == zb[q]);
                        }
                    }
                    assert forall|u: int| 0 <= u < t + 1 && #[trigger] mask@[u] implies label@[u] != 0 by {
                        if u < t {
                            assert(lb[u] != 0);
                            assert(label@[u] == lb[u]);
                        } else {
                            let zq = zones@[zb.len() as int]@;
                            assert(zq[0] == seed);
                            assert(zq.contains(seed));
                            assert(label@[index_of(seed, self.size)] == id);
                        }
                    }
                }
            }
            t = t + 1;
        }
        let ghost zs = zones_view(zones@);
        let ghost accept = |c: Cell| mask@[index_of(c, self.size)];
        proof {
            lemma_layout(self.size);
            assert forall|q: int| 0 <= q < zs.len() implies #[trigger] zs[q] == zones@[q]@ by {}
            assert forall|c: Cell| in_bounds(c, self.size) && #[trigger] accept(c) implies in_zones(zs, c) by {
                let q = label@[index_of(c, self.size)] - 1;
                assert(zs[q] == zones@[q]@);
                assert(zs[q].contains(c));
            }
            assert forall|i: int, j: int, c: Cell|
                0 <= i < zs.len() && 0 <= j < zs.len() && #[trigger] zs[i].contains(c) && #[trigger] zs[j].contains(c) implies i == j by {
                assert(zs[i] == zones@[i]@);
                assert(zs[j] == zones@[j]@);
            }
            assert forall|i: int, c: Cell, k: int|
                0 <= i < zs.len() && #[trigger] zs[i].contains(c) && 0 <= k < neighbour_offsets(self.dim).len() && in_bounds(
                    #[trigger] shift(c, neighbour_offsets(self.dim)[k]),
                    self.size,
                ) && accept(shift(c, neighbour_offsets(self.dim)[k])) implies zs[i].contains(shift(c, neighbour_offsets(self.dim)[k])) by {
                assert(zs[i] == zones@[i]@);
                let y = shift(c, neighbour_offsets(self.dim)[k]);
                assert(label@[index_of(y, self.size)] == label@[index_of(c, self.size)]);
            }
            assert forall|i: int, c: Cell|
                0 <= i < zs.len() && #[trigger] zs[i].contains(c) implies in_bounds(c, self.size) && accept(c) by {
                assert(zs[i] == zones@[i]@);
            }
            assert forall|i: int, c: Cell|
                0 <= i < zs.len() && #[trigger] zs[i].contains(c) implies linked_within(self.dim, zs[i], zs[i][0], c) by {
                assert(zs[i] == zones@[i]@);
            }
            assert forall|i: int| 0 <= i < zs.len() implies #[trigger] zs[i].len() > 0 && zs[i].no_duplicates() by {
                assert(zs[i] == zones@[i]@);
            }
        }
        zones
    }
}

/// Two acceptance predicates that agree inside the grid have the same zonings.
pub proof fn lemma_zoning_accept_ext(
    dim: Dim,
    size: Cell,
    a: spec_fn(Cell) -> bool,
    b: spec_fn(Cell) -> bool,
    zones: Seq<Seq<Cell>>,
)
    requires
        is_zoning(dim, size, a, zones),
        forall|c: Cell| in_bounds(c, size) ==> a(c) == b(c),
    ensures
        is_zoning(dim, size, b, zones),
{
    assert forall|c: Cell| in_bounds(c, size) && #[trigger] b(c) implies in_zones(zones, c) by {
        assert(a(c));
    }
    assert forall|i: int, c: Cell, k: int|
        0 <= i < zones.len() && #[trigger] zones[i].contains(c) && 0 <= k < neighbour_offsets(dim).len() && in_bounds(
            #[trigger] shift(c, neighbour_offsets(dim)[k]),
            size,
        ) && b(shift(c, neighbour_offsets(dim)[k])) implies zones[i].contains(shift(c, neighbour_offsets(dim)[k])) by {
        assert(a(shift(c, neighbour_offsets(dim)[k])));
    }
}

/// The kinds of cells that the maze groups into zones.
#[derive(Clone, Copy, PartialEq, Eq, Structural)]
pub(crate) enum Cover {
    Free,
    Wall,
    Room,
    Corridor,
}

impl Maze {
    pub(crate) open spec fn covers(&self, kind: Cover, c: Cell) -> bool {
        match kind {
            Cover::Free => !self.wall(c),
            Cover::Wall => self.wall(c),
            Cover::Room => self.room(c),
            Cover::Corridor => self.corridor(c),
        }
    }

    fn covers_cell(&self, kind: Cover, c: &Cell) -> (r: bool)
        requires
            self.wf(),
            small_cell(*c),
        ensures
            r == self.covers(kind, *c),
    {
        match kind {
            Cover::Free => !self.is_wall(c),
            Cover::Wall => self.is_wall(c),
            Cover::Room => self.is_room(c),
            Cover::Corridor => self.is_corridor(c),
        }
    }

    /// The zones of the cells of the given kind.
    pub(crate) fn zones_where(&self, kind: Cover) -> (zones: Vec<Vec<Cell>>)
        requires
            self.wf(),
        ensures
            is_zoning(self.dim, self.size, |c: Cell| self.covers(kind, c), zones_view(zones@)),
    {
        let n = cell_count(&self.size);
        let mut mask: Vec<bool> = Vec::new();
        let mut t: usize = 0;
        while t < n
            invariant
                self.wf(),
                n == volume(self.size),
                t <= n,
                mask@.len() == t,
                forall|u: int| 0 <= u < t ==> #[trigger] mask@[u] == self.covers(kind, cell_of(u, self.size)),
            decreases n - t,
        {
            let c = cell_at(t, &self.size);
            mask.push(self.covers_cell(kind, &c));
            t = t + 1;
        }
        let zones = self.zones_of_mask(&mask);
        proof {
            lemma_layout(self.size);
            lemma_zoning_accept_ext(
                self.dim,
                self.size,
                |c: Cell| mask@[index_of(c, self.size)],
                |c: Cell| self.covers(kind, c),
                zones_view(zones@),
            );
        }
        zones
    }

    /// Groups into zones the cells of the grid for which `filter` holds: cells connected through
    /// unit steps between accepted cells share a zone. `filter` is called on every cell of the
    /// grid and on no other cell.
    pub fn compute_zones<F: Fn(&Maze, &Cell) -> bool>(&self, filter: F) -> (zones: Vec<Vec<Cell>>)
        requires
            self.wf(),
            forall|c: Cell| in_bounds(c, self.spec_size()) ==> filter.requires((self, &c)),
        ensures
            is_zoning(self.spec_dim(), self.spec_size(), |c: Cell| in_zones(zones_view(zones@), c), zones_view(zones@)),
            forall|c: Cell| in_zones(zones_view(zones@), c) ==> filter.ensures((self, &c), true),
            forall|c: Cell|
                in_bounds(c, self.spec_size()) && !in_zones(zones_view(zones@), c) ==> filter.ensures((self, &c), false),
    {
        let n = cell_count(&self.size);
        let mut mask: Vec<bool> = Vec::new();
        let mut t: usize = 0;
        while t < n
            invariant
                self.wf(),
                n == volume(self.size),
                t <= n,
                mask@.len() == t,
                forall|c: Cell| in_bounds(c, self.spec_size()) ==> filter.requires((self, &c)),
                forall|u: int| 0 <= u < t ==> filter.ensures((self, &cell_of(u, self.size)), #[trigger] mask@[u]),
            decreases n - t,
        {
            let c = cell_at(t, &self.size);
            assert(in_bounds(c, self.spec_size()));
            let keep = filter(self, &c);
            mask.push(keep);
            t = t + 1;
        }
        let zones = self.zones_of_mask(&mask);
        proof {
            lemma_layout(self.size);
            let zs = zones_view(zones@);
            let a = |c: Cell| mask@[index_of(c, self.size)];
            let b = |c: Cell| in_zones(zs, c);
            assert forall|c: Cell| in_bounds(c, self.size) implies a(c) == b(c) by {
                if b(c) {
                    let i = choose|i: int| 0 <= i < zs.len() && #[trigger] zs[i].contains(c);
                }
            }
            lemma_zoning_accept_ext(self.dim, self.size, a, b, zs);
            assert forall|c: Cell| in_zones(zs, c) implies filter.ensures((self, &c), true) by {
                let i = choose|i: int| 0 <= i < zs.len() && #[trigger] zs[i].contains(c);
                assert(in_bounds(c, self.size) && a(c));
                assert(mask@[index_of(c, self.size)]);
                assert(cell_of(index_of(c, self.size), self.size) == c);
            }
            assert forall|c: Cell| in_bounds(c, self.size) && !in_zones(zs, c) implies filter.ensures((self, &c), false) by {
                assert(!a(c));
                assert(cell_of(index_of(c, self.size), self.size) == c);
            }
        }
        zones
    }

    /// The zones of free cells with more than two legal moves.
    pub fn compute_room_zones(&self) -> (zones: Vec<Vec<Cell>>)
        requires
            self.wf(),
        ensures
            is_room_zoning(*self, zones_view(zones@)),
    {
        let zones = self.zones_where(Cover::Room);
        proof {
            lemma_zoning_accept_ext(
                self.dim,
                self.size,
                |c: Cell| self.covers(Cover::Room, c),
                |c: Cell| self.room(c),
                zones_view(zones@),
            );
        }
        zones
    }

    /// The zones of free cells with at most two legal moves.
    pub fn compute_corridor_zones(&self) -> (zones: Vec<Vec<Cell>>)
        requires
            self.wf(),
        ensures
            is_corridor_zoning(*self, zones_view(zones@)),
    {
        let zones = self.zones_where(Cover::Corridor);
        proof {
            lemma_zoning_accept_ext(
                self.dim,
                self.size,
                |c: Cell| self.covers(Cover::Corridor, c),
                |c: Cell| self.corridor(c),
                zones_view(zones@),
            );
        }
        zones
    }

    /// The zones of free cells.
    pub fn compute_free_zones(&self) -> (zones: Vec<Vec<Cell>>)
        requires
            self.wf(),
        ensures
            is_free_zoning(*self, zones_view(zones@)),
    {
        let zones = self.zones_where(Cover::Free);
        proof {
            lemma_zoning_accept_ext(
                self.dim,
                self.size,
                |c: Cell| self.covers(Cover::Free, c),
                |c: Cell| !self.wall(c),
                zones_view(zones@),
            );
        }
        zones
    }
}

} // verus!
