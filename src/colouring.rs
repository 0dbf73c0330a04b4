use vstd::prelude::*;
use rand::rngs::StdRng;
use crate::grid::Cell;
use crate::maze::Maze;
use crate::rng::shuffle;
use crate::zones::{is_zoning, zones_view, Cover};

verus! {

/// The tag `t` carries the colour of a zone among the first `upto` of `zones` that holds its cell.
pub open spec fn tag_of_zone(zones: Seq<Seq<Cell>>, colour: Seq<usize>, t: (Cell, usize), upto: int) -> bool {
    exists|i: int| 0 <= i < upto && #[trigger] zones[i].contains(t.0) && t.1 == colour[i]
}

/// `tags` gives each wall of `m` the colour `colour[i]` of the zone `zones[i]` of walls that
/// holds it, once per wall.
pub open spec fn colours_zones(m: Maze, zones: Seq<Seq<Cell>>, colour: Seq<usize>, tags: Seq<(Cell, usize)>) -> bool {
    &&& is_zoning(m.spec_dim(), m.spec_size(), |c: Cell| m.wall(c), zones)
    &&& colour.len() == zones.len()
    &&& colour.no_duplicates()
    &&& forall|i: int| 0 <= i < colour.len() ==> #[trigger] colour[i] < zones.len()
    &&& forall|c: Cell| m.wall(c) <==> exists|j: int| 0 <= j < tags.len() && #[trigger] tags[j].0 == c
    &&& forall|j: int| 0 <= j < tags.len() ==> tag_of_zone(zones, colour, #[trigger] tags[j], zones.len() as int)
}

impl Maze {
    /// Gives every wall a colour: walls connected through unit steps between walls share one,
    /// and each such zone of walls has its own, drawn at random among `0..` the number of zones.
    pub fn build_colors(&self, rng: &mut StdRng) -> (tags: Vec<(Cell, usize)>)
        requires
            self.wf(),
        ensures
            exists|zones: Seq<Seq<Cell>>, colour: Seq<usize>| #[trigger] colours_zones(*self, zones, colour, tags@),
    {
        let zones = self.zones_where(Cover::Wall);
        let ghost zs = zones_view(zones@);
        let k = zones.len();
        let mut colour: Vec<usize> = Vec::new();
        let mut i: usize = 0;
        while i < k
            invariant
                i <= k,
                colour@ == Seq::new(i as nat, |t: int| t as usize),
            decreases k - i,
        {
            colour.push(i);
            i = i + 1;
            assert(colour@ =~= Seq::new(i as nat, |t: int| t as usize));
        }
        let ghost ordered = colour@;
        shuffle(&mut colour, rng);
        proof {
            assert(ordered.no_duplicates());
            ordered.lemma_multiset_has_no_duplicates();
            assert forall|x: usize| colour@.to_multiset().contains(x) implies colour@.to_multiset().count(x) == 1 by {}
            colour@.lemma_multiset_has_no_duplicates_conv();
            assert forall|q: int| 0 <= q < colour@.len() implies #[trigger] colour@[q] < k by {
                let x = colour@[q];
                vstd::seq_lib::to_multiset_contains(colour@, x);
                vstd::seq_lib::to_multiset_contains(ordered, x);
                assert(colour@.contains(x));
                assert(ordered.contains(x));
            }
            vstd::seq_lib::to_multiset_len(colour@);
            vstd::seq_lib::to_multiset_len(ordered);
        }
        let mut tags: Vec<(Cell, usize)> = Vec::new();
        let mut i: usize = 0;
        while i < k
            invariant
                zs == zones_view(zones@),
                k == zones@.len(),
                colour@.len() == k,
                i <= k,
                forall|j: int| 0 <= j < tags@.len() ==> tag_of_zone(zs, colour@, #[trigger] tags@[j], i as int),
                forall|q: int, c: Cell|
                    0 <= q < i && #[trigger] zs[q].contains(c) ==> exists|j: int| 0 <= j < tags@.len() && #[trigger] tags@[j].0 == c,
            decreases k - i,
        {
            let zone = &zones[i];
            assert(zs[i as int] == zone@);
            assert forall|j: int| 0 <= j < tags@.len() implies tag_of_zone(zs, colour@, #[trigger] tags@[j], i + 1) by {
                let q = choose|q: int| 0 <= q < i && #[trigger] zs[q].contains(tags@[j].0) && tags@[j].1 == colour@[q];
            }
            let mut p: usize = 0;
            while p < zone.len()
                invariant
                    zs == zones_view(zones@),
                    k == zones@.len(),
                    colour@.len() == k,
                    i < k,
                    zs[i as int] == zone@,
                    p <= zone@.len(),
                    forall|j: int| 0 <= j < tags@.len() ==> tag_of_zone(zs, colour@, #[trigger] tags@[j], i + 1),
                    forall|q: int, c: Cell|
                        0 <= q < i && #[trigger] zs[q].contains(c) ==> exists|j: int| 0 <= j < tags@.len() && #[trigger] tags@[j].0 == c,
                    forall|t: int| #![trigger zone@[t]] 0 <= t < p ==> exists|j: int| 0 <= j < tags@.len() && #[trigger] tags@[j].0 == zone@[t],
                decreases zone@.len() - p,
            {
                let ghost tb = tags@;
                tags.push((zone[p], colour[i]));
                proof {
                    assert(tags@[tb.len() as int].0 == zone@[p as int]);
                    assert(zs[i as int].contains(zone@[p as int]));
                    assert forall|j: int| 0 <= j < tags@.len() implies tag_of_zone(zs, colour@, #[trigger] tags@[j], i + 1) by {
                        if j < tb.len() {
                            assert(tags@[j] == tb[j]);
                            assert(tag_of_zone(zs, colour@, tb[j], i + 1));
                        } else {
                            assert(zs[i as int].contains(tags@[j].0) && tags@[j].1 == colour@[i as int]);
                            assert(tag_of_zone(zs, colour@, tags@[j], i + 1));
                        }
                    }
                    assert forall|q: int, c: Cell|
                        0 <= q < i && #[trigger] zs[q].contains(c) implies exists|j: int| 0 <= j < tags@.len() && #[trigger] tags@[j].0 == c by {
                        let j = choose|j: int| 0 <= j < tb.len() && #[trigger] tb[j].0 == c;
                        assert(tags@[j] == tb[j]);
                    }
                    assert forall|t: int| #![trigger zone@[t]] 0 <= t < p + 1 implies exists|j: int| 0 <= j < tags@.len() && #[trigger] tags@[j].0 == zone@[t] by {
                        if t < p {
                            let j = choose|j: int| 0 <= j < tb.len() && #[trigger] tb[j].0 == zone@[t];
                            assert(tags@[j] == tb[j]);
                        }
                    }
                }
                p = p + 1;
            }
            proof {
                assert forall|q: int, c: Cell|
                    0 <= q < i + 1 && #[trigger] zs[q].contains(c) implies exists|j: int| 0 <= j < tags@.len() && #[trigger] tags@[j].0 == c by {
                    if q == i {
                        let t = choose|t: int| 0 <= t < zone@.len() && zone@[t] == c;
                    }
                }
            }
            i = i + 1;
        }
        proof {
            let accept = |c: Cell| self.covers(Cover::Wall, c);
            crate::zones::lemma_zoning_accept_ext(self.dim, self.size, accept, |c: Cell| self.wall(c), zs);
            assert forall|c: Cell| self.wall(c) <==> exists|j: int| 0 <= j < tags@.len() && #[trigger] tags@[j].0 == c by {
                if self.wall(c) {
                    self.lemma_walls_in_bounds(c);
                    assert(accept(c));
                    let q = choose|q: int| 0 <= q < zs.len() && #[trigger] zs[q].contains(c);
                }
                if exists|j: int| 0 <= j < tags@.len() && #[trigger] tags@[j].0 == c {
                    let j = choose|j: int| 0 <= j < tags@.len() && #[trigger] tags@[j].0 == c;
                    assert(tag_of_zone(zs, colour@, tags@[j], k as int));
                    let q = choose|q: int| 0 <= q < k && #[trigger] zs[q].contains(tags@[j].0) && tags@[j].1 == colour@[q];
                    assert(accept(c));
                }
            }
            assert(is_zoning(self.dim, self.size, |c: Cell| self.wall(c), zs));
            assert(zs.len() == k);
            assert(colours_zones(*self, zs, colour@, tags@));
        }
        tags
    }
}

} // verus!
