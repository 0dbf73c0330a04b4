use rand::rngs::StdRng;
use rand::SeedableRng;
use sese::grid::{Cell, Dim};
use sese::maze::Maze;

fn c2(x: isize, y: isize) -> Cell {
    Cell::new(x, y, 0)
}

fn flat(w: isize, h: isize) -> Maze {
    Maze::new_rectangle(Dim::Two, Cell::new(w, h, 1))
}

/// A flat maze of walls but for the given free cells.
fn carved(w: isize, h: isize, free: &[(isize, isize)]) -> Maze {
    let mut m = flat(w, h);
    for x in 0..w {
        for y in 0..h {
            if !free.contains(&(x, y)) {
                m.add_wall(&c2(x, y));
            }
        }
    }
    m
}

fn sorted(mut v: Vec<Cell>) -> Vec<(isize, isize, isize)> {
    let mut r: Vec<(isize, isize, isize)> = v.drain(..).map(|c| (c.x, c.y, c.z)).collect();
    r.sort();
    r
}

fn free_zone_count(m: &Maze) -> usize {
    m.compute_zones(|maze: &Maze, c: &Cell| !maze.is_wall(c)).len()
}

fn path_cost(p: &[Cell]) -> isize {
    let mut cost = 0;
    for w in p.windows(2) {
        let moved = ((w[1].x - w[0].x) != 0) as isize + ((w[1].y - w[0].y) != 0) as isize + ((w[1].z - w[0].z) != 0) as isize;
        cost += match moved {
            1 => 10,
            2 => 15,
            _ => 17,
        };
    }
    cost
}

#[test]
fn new_empty_has_no_cell() {
    let m = Maze::new_empty(Dim::Three);
    assert_eq!(m.size(), Cell::new(0, 0, 0));
    assert!(m.walls().is_empty());
    let m = Maze::new_empty(Dim::Two);
    assert_eq!(m.size(), Cell::new(0, 0, 1));
}

#[test]
fn new_rectangle_is_free() {
    let m = flat(3, 4);
    assert_eq!(m.size(), Cell::new(3, 4, 1));
    assert!(m.walls().is_empty());
    assert!(!m.is_wall(&c2(1, 1)));
}

#[test]
fn cuboid() {
    assert!(flat(3, 3).is_cuboid());
    assert!(!flat(3, 5).is_cuboid());
    assert!(Maze::new_rectangle(Dim::Three, Cell::new(3, 3, 3)).is_cuboid());
    assert!(!Maze::new_rectangle(Dim::Three, Cell::new(3, 3, 5)).is_cuboid());
}

#[test]
fn walls_stay_in_bounds() {
    let mut m = flat(5, 5);
    m.circle();
    assert!(m.check());
    m.reduce(1);
    assert!(m.check());
    m.extend(2);
    assert!(m.check());
    let s = m.size();
    for w in m.walls() {
        assert!(w.x >= 0 && w.x < s.x && w.y >= 0 && w.y < s.y && w.z == 0);
    }
}

#[test]
fn reduce_moves_walls_in() {
    let mut m = flat(5, 5);
    m.add_wall(&c2(0, 0));
    m.add_wall(&c2(2, 2));
    m.add_wall(&c2(3, 1));
    m.reduce(1);
    assert_eq!(m.size(), Cell::new(3, 3, 1));
    assert_eq!(sorted(m.walls()), vec![(1, 1, 0), (2, 0, 0)]);
}

#[test]
fn extend_moves_walls_out() {
    let mut m = flat(3, 3);
    m.add_wall(&c2(0, 0));
    m.extend(2);
    assert_eq!(m.size(), Cell::new(7, 7, 1));
    assert_eq!(sorted(m.walls()), vec![(2, 2, 0)]);
}

#[test]
fn reduce_then_extend_restores_inner_walls() {
    let mut m = flat(7, 5);
    for &(x, y) in &[(0, 0), (1, 1), (3, 2), (5, 3), (6, 4), (2, 4)] {
        m.add_wall(&c2(x, y));
    }
    m.reduce(1);
    m.extend(1);
    assert_eq!(m.size(), Cell::new(7, 5, 1));
    assert_eq!(sorted(m.walls()), vec![(1, 1, 0), (3, 2, 0), (5, 3, 0)]);
}

#[test]
fn reduce_three_dimensions() {
    let mut m = Maze::new_rectangle(Dim::Three, Cell::new(4, 4, 4));
    m.add_wall(&Cell::new(1, 2, 1));
    m.add_wall(&Cell::new(0, 2, 1));
    m.reduce(1);
    assert_eq!(m.size(), Cell::new(2, 2, 2));
    assert_eq!(sorted(m.walls()), vec![(0, 1, 0)]);
}

#[test]
fn circle_seals_the_border() {
    let mut m = flat(5, 4);
    m.circle();
    for x in 0..5 {
        for y in 0..4 {
            let rim = x == 0 || x == 4 || y == 0 || y == 3;
            assert_eq!(m.is_wall(&c2(x, y)), rim);
        }
    }
    let mut m = Maze::new_rectangle(Dim::Three, Cell::new(3, 3, 3));
    m.circle();
    assert_eq!(m.walls().len(), 26);
    assert!(!m.is_wall(&Cell::new(1, 1, 1)));
}

#[test]
fn zones_split_by_walls() {
    // free cells: a block of three on the left, one cell on the right
    let m = carved(5, 3, &[(0, 0), (0, 1), (1, 1), (3, 1)]);
    let zones = m.compute_zones(|maze: &Maze, c: &Cell| !maze.is_wall(c));
    let mut sizes: Vec<usize> = zones.iter().map(|z| z.len()).collect();
    sizes.sort();
    assert_eq!(sizes, vec![1, 3]);
    let walls = m.compute_zones(|maze: &Maze, c: &Cell| maze.is_wall(c));
    assert_eq!(walls.len(), 1);
    assert_eq!(walls[0].len(), 11);
}

#[test]
fn free_zones_match_closure_zones() {
    let m = carved(4, 4, &[(0, 0), (1, 0), (3, 3), (3, 2)]);
    assert_eq!(m.compute_free_zones().len(), 2);
    assert_eq!(free_zone_count(&m), 2);
}

#[test]
fn fill_smallests_keeps_largest_zone() {
    let mut m = carved(5, 3, &[(0, 0), (0, 1), (1, 1), (3, 1)]);
    assert!(m.fill_smallests());
    assert!(m.is_wall(&c2(3, 1)));
    assert!(!m.is_wall(&c2(0, 0)));
    assert!(!m.is_wall(&c2(1, 1)));
    assert!(!m.fill_smallests());
    assert_eq!(free_zone_count(&m), 1);
}

#[test]
fn fill_smallests_on_full_walls() {
    let mut m = carved(3, 3, &[]);
    assert!(!m.fill_smallests());
    assert_eq!(free_zone_count(&m), 0);
}

#[test]
fn corridor_and_room_cells() {
    let m = carved(9, 5, &[(1, 1), (2, 1), (3, 1), (1, 2), (2, 2), (3, 2), (1, 3), (2, 3), (3, 3), (4, 2), (5, 2), (6, 2)]);
    assert!(m.is_corridor(&c2(5, 2)));
    assert!(m.is_corridor(&c2(6, 2)));
    assert!(!m.is_corridor(&c2(2, 2)));
    assert!(m.is_room(&c2(2, 2)));
    assert!(!m.is_corridor(&c2(0, 0)));
    assert_eq!(m.count_openings(&c2(1, 1)), 3);
    assert_eq!(m.count_openings(&c2(5, 2)), 2);
    assert!(m.is_neighbouring_corridor(&c2(3, 2)));
    assert!(!m.is_neighbouring_corridor(&c2(2, 2)));
    assert!(m.is_neighbouring_wall(&c2(1, 1)));
    assert!(!m.is_neighbouring_wall(&c2(2, 2)));
    assert_eq!(m.count_wall_neighbours(&c2(6, 2)), 3);
}

#[test]
fn dead_room_with_its_corridor() {
    let m = carved(9, 5, &[(1, 1), (2, 1), (3, 1), (1, 2), (2, 2), (3, 2), (1, 3), (2, 3), (3, 3), (4, 2), (5, 2), (6, 2)]);
    let rooms = m.compute_room_zones();
    assert_eq!(rooms.len(), 1);
    assert_eq!(rooms[0].len(), 9);
    assert_eq!(m.compute_corridor_zones().len(), 1);
    let dead = m.compute_dead_room_zones();
    assert_eq!(dead.len(), 1);
    assert_eq!(dead[0].len(), 9);
    let whole = m.compute_dead_room_and_corridor_zones();
    assert_eq!(whole.len(), 1);
    assert_eq!(whole[0].len(), 12);
    let inner = m.compute_inner_room_zones();
    assert_eq!(inner.len(), 1);
    assert_eq!(inner[0].len(), 8);
    assert!(!inner[0].contains(&c2(3, 2)));
    let exits = m.exits(&rooms[0]);
    assert_eq!(exits, vec![c2(4, 2)]);
}

#[test]
fn fill_dead_rooms_walls_the_room() {
    let mut m = carved(9, 5, &[(1, 1), (2, 1), (3, 1), (1, 2), (2, 2), (3, 2), (1, 3), (2, 3), (3, 3), (4, 2), (5, 2), (6, 2)]);
    assert!(m.fill_dead_rooms());
    assert!(m.is_wall(&c2(2, 2)));
    assert!(!m.is_wall(&c2(4, 2)));
    assert!(!m.fill_dead_rooms());
}

#[test]
fn room_with_two_exits_is_not_dead() {
    let m = carved(11, 5, &[(1, 2), (2, 2), (3, 1), (4, 1), (5, 1), (3, 2), (4, 2), (5, 2), (3, 3), (4, 3), (5, 3), (6, 2), (7, 2)]);
    assert_eq!(m.compute_room_zones().len(), 1);
    assert!(m.compute_dead_room_zones().is_empty());
}

#[test]
fn fill_dead_corridors_reaches_fixed_point() {
    // a loop of free cells with a dead-end spur
    let mut free = vec![];
    for x in 1..6 {
        free.push((x, 1));
        free.push((x, 3));
    }
    free.push((1, 2));
    free.push((5, 2));
    free.push((3, 4));
    free.push((3, 5));
    let mut m = carved(7, 7, &free);
    assert!(m.fill_dead_corridors());
    assert!(m.is_wall(&c2(3, 5)));
    assert!(m.is_wall(&c2(3, 4)));
    assert!(!m.fill_dead_corridors());
    for x in 0..7 {
        for y in 0..7 {
            let c = c2(x, y);
            if m.is_corridor(&c) {
                assert!(m.count_wall_neighbours(&c) + 1 < 4);
            }
        }
    }
}

#[test]
fn fill_dead_corridors_removes_a_lone_corridor() {
    let mut m = carved(7, 3, &[(1, 1), (2, 1), (3, 1), (4, 1), (5, 1)]);
    assert!(m.fill_dead_corridors());
    assert_eq!(m.walls().len(), 21);
    assert!(!m.fill_dead_corridors());
}

#[test]
fn straight_corridor_path() {
    for n in 1..6isize {
        let mut free = vec![];
        for t in 0..=n {
            free.push((1 + t, 1));
        }
        let m = carved(n + 3, 3, &free);
        let p = m.find_path(c2(1, 1), c2(1 + n, 1)).unwrap();
        assert_eq!(p.len() as isize, n + 1);
        for (t, c) in p.iter().enumerate() {
            assert_eq!(*c, c2(1 + t as isize, 1));
        }
        assert_eq!(path_cost(&p), 10 * n);
    }
}

#[test]
fn path_takes_diagonals() {
    let mut m = flat(5, 5);
    m.circle();
    let p = m.find_path(c2(1, 1), c2(3, 3)).unwrap();
    assert_eq!(p, vec![c2(1, 1), c2(2, 2), c2(3, 3)]);
    assert_eq!(path_cost(&p), 30);
}

#[test]
fn path_does_not_cut_corners() {
    // the diagonal from (1,1) to (2,2) is blocked by the wall at (2,1)
    let m = carved(4, 4, &[(1, 1), (1, 2), (2, 2)]);
    let p = m.find_path(c2(1, 1), c2(2, 2)).unwrap();
    assert_eq!(p, vec![c2(1, 1), c2(1, 2), c2(2, 2)]);
}

#[test]
fn no_path_through_walls() {
    let m = carved(5, 3, &[(1, 1), (3, 1)]);
    assert!(m.find_path(c2(1, 1), c2(3, 1)).is_none());
    assert_eq!(m.find_path(c2(1, 1), c2(1, 1)), Some(vec![c2(1, 1)]));
}

#[test]
fn path_in_three_dimensions() {
    let mut m = Maze::new_rectangle(Dim::Three, Cell::new(5, 5, 5));
    m.circle();
    let p = m.find_path(Cell::new(1, 1, 1), Cell::new(3, 3, 3)).unwrap();
    assert_eq!(p.len(), 3);
    assert_eq!(path_cost(&p), 34);
}

#[test]
fn successors_and_heuristic() {
    let mut m = flat(5, 5);
    m.circle();
    let s = m.successors(&c2(1, 1));
    assert_eq!(s.len(), 3);
    assert!(s.contains(&(c2(2, 2), 15)));
    assert!(s.contains(&(c2(2, 1), 10)));
    assert_eq!(m.heuristic(&c2(1, 1), &c2(3, 4)), 20);
}

#[test]
fn free_in_square_lists_the_ring() {
    let m = flat(5, 5);
    let r = m.free_in_square(c2(2, 2), 1);
    assert_eq!(r.len(), 8);
    assert!(!r.contains(&c2(2, 2)));
    let mut m = flat(5, 5);
    m.add_wall(&c2(1, 1));
    let r = m.free_in_square(c2(2, 2), 1);
    assert_eq!(r.len(), 7);
    let r = m.free_in_square(c2(0, 0), 1);
    assert_eq!(sorted(r), vec![(0, 0, 0), (0, 1, 0), (1, 0, 0)]);
    let r = m.free_in_square(c2(2, 2), 0);
    assert_eq!(r, vec![c2(2, 2)]);
}

#[test]
fn free_in_cube() {
    let m = Maze::new_rectangle(Dim::Three, Cell::new(3, 3, 3));
    assert_eq!(m.free_in_square(Cell::new(1, 1, 1), 1).len(), 26);
}

#[test]
fn random_free_finds_free_cells() {
    let mut rng = StdRng::seed_from_u64(3);
    let m = carved(6, 6, &[(4, 1), (2, 5)]);
    for _ in 0..50 {
        let c = m.random_free(&mut rng).unwrap();
        assert!(c == c2(4, 1) || c == c2(2, 5));
    }
    let full = carved(3, 3, &[]);
    assert!(full.random_free(&mut rng).is_none());
    assert!(Maze::new_empty(Dim::Two).random_free(&mut rng).is_none());
}

#[test]
fn kruskal_percent_zero_keeps_every_blob() {
    let mut rng = StdRng::seed_from_u64(1);
    let m = Maze::new_kruskal(Dim::Two, Cell::new(9, 9, 1), 0, Cell::new(0, 0, 0), &mut rng);
    assert_eq!(m.size(), Cell::new(9, 9, 1));
    assert!(m.is_wall(&c2(1, 2)));
    assert!(m.is_wall(&c2(1, 1)));
    assert!(m.is_wall(&c2(2, 3)));
    assert!(m.is_wall(&c2(7, 6)));
    assert!(!m.is_wall(&c2(2, 2)));
    assert!(!m.is_wall(&c2(0, 0)));
    assert!(!m.is_wall(&c2(1, 0)));
    assert!(!m.is_wall(&c2(8, 4)));
    for x in (0..9).step_by(2) {
        for y in (0..9).step_by(2) {
            assert!(!m.is_wall(&c2(x, y)));
        }
    }
}

#[test]
fn kruskal_partial_keeps_walls() {
    let mut rng = StdRng::seed_from_u64(8);
    let m = Maze::new_kruskal(Dim::Three, Cell::new(5, 5, 5), 50, Cell::new(0, 0, 0), &mut rng);
    assert!(!m.walls().is_empty());
    assert!(m.check());
}

#[test]
fn kruskal_full_is_connected() {
    for seed in 0..10 {
        let mut rng = StdRng::seed_from_u64(seed);
        let m = Maze::new_kruskal(Dim::Two, Cell::new(11, 11, 1), 100, Cell::new(0, 0, 0), &mut rng);
        assert!(!m.walls().is_empty());
        assert_eq!(free_zone_count(&m), 1);
        for x in (0..11).step_by(2) {
            for y in (0..11).step_by(2) {
                assert!(!m.is_wall(&c2(x, y)));
            }
        }
    }
}

#[test]
fn kruskal_three_dimensions_is_connected() {
    let mut rng = StdRng::seed_from_u64(5);
    let m = Maze::new_kruskal(Dim::Three, Cell::new(7, 7, 7), 100, Cell::new(0, 0, 0), &mut rng);
    assert!(m.check());
    assert!(!m.walls().is_empty());
    assert_eq!(free_zone_count(&m), 1);
}

#[test]
fn kruskal_small_scenario() {
    let mut rng = StdRng::seed_from_u64(11);
    let m = Maze::new_kruskal(Dim::Two, Cell::new(5, 5, 1), 100, Cell::new(0, 0, 0), &mut rng);
    for _ in 0..100 {
        let c = m.random_free(&mut rng).unwrap();
        assert!((0..5).contains(&c.x) && (0..5).contains(&c.y) && c.z == 0);
    }
    let junctions: Vec<Cell> = (0..5).step_by(2).flat_map(|x| (0..5).step_by(2).map(move |y| c2(x, y))).collect();
    for a in &junctions {
        for b in &junctions {
            assert!(m.find_path(*a, *b).is_some());
        }
    }
}

#[test]
fn kruskal_with_shifted_lattice() {
    let mut rng = StdRng::seed_from_u64(2);
    let m = Maze::new_kruskal(Dim::Two, Cell::new(9, 9, 1), 100, Cell::new(1, 1, 0), &mut rng);
    assert!(m.check());
    assert!(!m.walls().is_empty());
}

#[test]
fn dig_cells_opens_dead_ends() {
    let mut rng = StdRng::seed_from_u64(4);
    let mut m = carved(5, 5, &[(1, 1), (2, 1), (3, 1)]);
    let dug = m.dig_cells(3, |c: &Cell| c.y == 2 && c.x != 2, &mut rng);
    assert_eq!(dug.len(), 2);
    for (cell, opening) in &dug {
        assert_eq!(cell.y, 2);
        assert!(!m.is_wall(cell));
        assert!(!m.is_wall(opening));
        assert_eq!((cell.x - opening.x).abs() + (cell.y - opening.y).abs(), 1);
    }
    let none = m.dig_cells(3, |c: &Cell| c.y == 4, &mut rng);
    assert!(none.is_empty());
}

#[test]
fn level_maze_is_built() {
    let mut rng = StdRng::seed_from_u64(9);
    let m = sese::level::build_level_maze(4, false, true, false, 90, &mut rng);
    assert_eq!(m.size(), Cell::new(5, 5, 5));
    assert_eq!(m.dim(), Dim::Three);
    assert!(m.check());
}

#[test]
fn colours_follow_wall_zones() {
    let mut rng = StdRng::seed_from_u64(6);
    let mut m = flat(5, 3);
    m.add_wall(&c2(0, 0));
    m.add_wall(&c2(0, 1));
    m.add_wall(&c2(4, 2));
    let tags = m.build_colors(&mut rng);
    assert_eq!(tags.len(), 3);
    let colour_of = |c: Cell| tags.iter().find(|t| t.0 == c).unwrap().1;
    assert_eq!(colour_of(c2(0, 0)), colour_of(c2(0, 1)));
    assert_ne!(colour_of(c2(0, 0)), colour_of(c2(4, 2)));
    for t in &tags {
        assert!(t.1 < 2);
    }
}

#[test]
fn two_dead_rooms_share_a_corridor() {
    let mut free = vec![];
    for x in 1..4 {
        for y in 1..4 {
            free.push((x, y));
            free.push((x + 6, y));
        }
    }
    for x in 4..7 {
        free.push((x, 2));
    }
    let m = carved(11, 5, &free);
    let dead = m.compute_dead_room_zones();
    assert_eq!(dead.len(), 2);
    let whole = m.compute_dead_room_and_corridor_zones();
    assert_eq!(whole.len(), dead.len());
    for (room, branch) in dead.iter().zip(whole.iter()) {
        assert_eq!(branch.len(), 12);
        for c in room {
            assert!(branch.contains(c));
        }
        assert!(branch.contains(&c2(5, 2)));
    }
}
