use feg::cost::Cost;
use feg::pathfinding::compute_path_costs;
use feg::pathfinding::get_path;
use feg::terrain::Terrain;

fn open_grid(w: usize, h: usize) -> Vec<Vec<Terrain>> {
    vec![vec![Terrain::Open; h]; w]
}

fn price(cost: Option<&Cost>) -> Option<(i64, i64)> {
    cost.map(|c| (c.numer(), c.denom()))
}

#[test]
fn sand_is_not_entered_over_budget() {
    let mut terrain = open_grid(10, 10);
    terrain[1][0] = Terrain::Sand;
    let (paths, costs, boundary, reachable) = compute_path_costs((0, 0), &terrain, 10, 10, 2);
    assert!(!reachable.contains((1, 0)));
    assert_eq!(price(costs.get((1, 0))), None);
    assert!(!reachable.contains((2, 0)));
    assert_eq!(price(costs.get((0, 0))), Some((0, 1)));
    assert_eq!(price(costs.get((0, 1))), Some((1, 1)));
    assert_eq!(price(costs.get((0, 2))), Some((2, 1)));
    assert_eq!(price(costs.get((1, 1))), Some((2, 1)));
    assert_eq!(reachable.len(), 4);
    assert_eq!(paths.len(), 4);
    assert_eq!(costs.len(), 4);
    assert!(boundary.contains((0, 2)));
    assert!(boundary.contains((1, 1)));
    assert!(!boundary.contains((0, 1)));
    assert!(!boundary.contains((0, 0)));
    assert_eq!(get_path((1, 1), &paths), vec![(0, 0), (0, 1), (1, 1)]);
}

#[test]
fn sand_costs_five_halves() {
    let mut terrain = open_grid(10, 10);
    terrain[1][0] = Terrain::Sand;
    let (paths, costs, _boundary, reachable) = compute_path_costs((0, 0), &terrain, 10, 10, 4);
    assert!(reachable.contains((1, 0)));
    assert_eq!(price(costs.get((1, 0))), Some((5, 2)));
    assert_eq!(paths.get((1, 0)), Some(&(0, 0)));
    assert_eq!(price(costs.get((2, 0))), Some((7, 2)));
    assert_eq!(paths.get((2, 0)), Some(&(1, 0)));
    assert_eq!(price(costs.get((3, 0))), None);
    assert_eq!(price(costs.get((2, 1))), Some((3, 1)));
}

fn sample_map() -> Vec<Vec<Terrain>> {
    let rows = [
        "000w000",
        "0s0w0s0",
        "0s000s0",
        "00ww000",
        "s000sw0",
        "0w0s000",
    ];
    let mut terrain = open_grid(7, 6);
    for (y, row) in rows.iter().enumerate() {
        for (x, ch) in row.chars().enumerate() {
            terrain[x][y] = match ch {
                'w' => Terrain::Wall,
                's' => Terrain::Sand,
                _ => Terrain::Open,
            };
        }
    }
    terrain
}

fn halves(c: &Cost) -> i64 {
    if c.denom() == 1 {
        2 * c.numer()
    } else {
        c.numer()
    }
}

fn entry_halves(t: &Terrain) -> i64 {
    match t {
        Terrain::Open => 2,
        Terrain::Sand => 5,
        Terrain::Wall => panic!("a wall has no price"),
    }
}

fn neighbours(c: (u32, u32), w: u32, h: u32) -> Vec<(u32, u32)> {
    let mut out = Vec::new();
    if c.0 >= 1 {
        out.push((c.0 - 1, c.1));
    }
    if c.0 + 1 < w {
        out.push((c.0 + 1, c.1));
    }
    if c.1 >= 1 {
        out.push((c.0, c.1 - 1));
    }
    if c.1 + 1 < h {
        out.push((c.0, c.1 + 1));
    }
    out
}

// The cheapest prices by repeated relaxation of every step, without any
// budget: what an exploration has to agree with.
fn cheapest(terrain: &Vec<Vec<Terrain>>, src: (u32, u32), w: u32, h: u32) -> Vec<Vec<Option<i64>>> {
    let mut best = vec![vec![None; h as usize]; w as usize];
    best[src.0 as usize][src.1 as usize] = Some(0);
    loop {
        let mut changed = false;
        for x in 0..w {
            for y in 0..h {
                let here = match best[x as usize][y as usize] {
                    Some(v) => v,
                    None => continue,
                };
                for n in neighbours((x, y), w, h) {
                    let tile = &terrain[n.0 as usize][n.1 as usize];
                    if *tile == Terrain::Wall {
                        continue;
                    }
                    let via = here + entry_halves(tile);
                    let known = best[n.0 as usize][n.1 as usize];
                    if known.map_or(true, |k| via < k) {
                        best[n.0 as usize][n.1 as usize] = Some(via);
                        changed = true;
                    }
                }
            }
        }
        if !changed {
            return best;
        }
    }
}

#[test]
fn with_no_budget_only_the_source_is_reachable() {
    let terrain = open_grid(10, 10);
    let (paths, costs, boundary, reachable) = compute_path_costs((4, 4), &terrain, 10, 10, 0);
    assert_eq!(reachable.to_vec(), vec![(4, 4)]);
    assert_eq!(boundary.to_vec(), vec![(4, 4)]);
    assert_eq!(paths.len(), 1);
    assert_eq!(paths.get((4, 4)), Some(&(4, 4)));
    assert_eq!(price(costs.get((4, 4))), Some((0, 1)));
    assert_eq!(get_path((4, 4), &paths), vec![(4, 4)]);
}

#[test]
fn a_source_off_the_map_reaches_nothing() {
    let terrain = open_grid(10, 10);
    for src in [(10, 3), (3, 10), (10, 10), (u32::MAX, 0), (0, u32::MAX)] {
        let (paths, costs, boundary, reachable) = compute_path_costs(src, &terrain, 10, 10, 5);
        assert_eq!(paths.len(), 0);
        assert_eq!(costs.len(), 0);
        assert_eq!(boundary.len(), 0);
        assert_eq!(reachable.len(), 0);
        assert_eq!(get_path(src, &paths), vec![]);
    }
}

#[test]
fn the_tile_under_the_source_is_not_charged() {
    let mut terrain = open_grid(5, 5);
    terrain[2][2] = Terrain::Wall;
    let (_paths, costs, _boundary, reachable) = compute_path_costs((2, 2), &terrain, 5, 5, 1);
    assert!(reachable.contains((2, 2)));
    assert_eq!(price(costs.get((2, 2))), Some((0, 1)));
    assert_eq!(reachable.len(), 5);
    assert_eq!(price(costs.get((2, 1))), Some((1, 1)));
    let mut terrain = open_grid(5, 5);
    terrain[2][2] = Terrain::Sand;
    let (_paths, costs, _boundary, _reachable) = compute_path_costs((2, 2), &terrain, 5, 5, 1);
    assert_eq!(price(costs.get((2, 2))), Some((0, 1)));
    assert_eq!(price(costs.get((3, 2))), Some((1, 1)));
}

#[test]
fn walls_are_not_reachable() {
    let terrain = sample_map();
    let (_paths, _costs, boundary, reachable) = compute_path_costs((0, 0), &terrain, 7, 6, 40);
    for x in 0..7u32 {
        for y in 0..6u32 {
            let wall = terrain[x as usize][y as usize] == Terrain::Wall;
            assert_eq!(reachable.contains((x, y)), !wall);
            if wall {
                assert!(!boundary.contains((x, y)));
            }
        }
    }
}

#[test]
fn walls_can_close_off_a_part_of_the_map() {
    let mut terrain = open_grid(5, 3);
    for y in 0..3 {
        terrain[2][y] = Terrain::Wall;
    }
    let (_paths, _costs, _boundary, reachable) = compute_path_costs((0, 1), &terrain, 5, 3, 50);
    assert_eq!(reachable.len(), 6);
    assert!(!reachable.contains((3, 1)));
    assert!(!reachable.contains((4, 0)));
}

#[test]
fn prices_are_the_cheapest_and_within_budget() {
    let terrain = sample_map();
    for budget in [0u32, 1, 2, 3, 4, 5, 7, 9, 12, 30] {
        for src in [(0u32, 0u32), (4, 2), (6, 5), (2, 4)] {
            let best = cheapest(&terrain, src, 7, 6);
            let (_paths, costs, _boundary, reachable) =
                compute_path_costs(src, &terrain, 7, 6, budget);
            for x in 0..7u32 {
                for y in 0..6u32 {
                    let expected = match best[x as usize][y as usize] {
                        Some(v) if v <= 2 * budget as i64 => Some(v),
                        _ => None,
                    };
                    assert_eq!(costs.get((x, y)).map(halves), expected);
                    assert_eq!(reachable.contains((x, y)), expected.is_some());
                }
            }
        }
    }
}

#[test]
fn paths_are_walks_at_the_stated_price() {
    let terrain = sample_map();
    let src = (4, 2);
    let (paths, costs, _boundary, reachable) = compute_path_costs(src, &terrain, 7, 6, 6);
    assert!(reachable.len() > 10);
    for c in reachable.to_vec() {
        let path = get_path(c, &paths);
        assert_eq!(path[0], src);
        assert_eq!(path[path.len() - 1], c);
        let mut total = 0;
        for step in path.windows(2) {
            let (a, b) = (step[0], step[1]);
            let dx = (a.0 as i64 - b.0 as i64).abs();
            let dy = (a.1 as i64 - b.1 as i64).abs();
            assert_eq!(dx + dy, 1);
            total += entry_halves(&terrain[b.0 as usize][b.1 as usize]);
        }
        assert_eq!(Some(total), costs.get(c).map(halves));
    }
}

#[test]
fn the_boundary_holds_the_cells_that_nothing_points_to() {
    let terrain = sample_map();
    let src = (4, 2);
    let (paths, _costs, boundary, reachable) = compute_path_costs(src, &terrain, 7, 6, 5);
    let cells = reachable.to_vec();
    for c in cells.iter() {
        let pointed_to = cells
            .iter()
            .any(|d| *d != src && paths.get(*d) == Some(c));
        assert_eq!(boundary.contains(*c), !pointed_to);
    }
    for c in boundary.to_vec() {
        assert!(reachable.contains(c));
    }
}

#[test]
fn of_equally_cheap_neighbours_the_greater_cell_is_the_parent() {
    let terrain = open_grid(3, 3);
    let (paths, _costs, _boundary, _reachable) = compute_path_costs((1, 1), &terrain, 3, 3, 2);
    assert_eq!(paths.get((2, 2)), Some(&(2, 1)));
    assert_eq!(paths.get((0, 0)), Some(&(1, 0)));
    assert_eq!(paths.get((0, 2)), Some(&(1, 2)));
    assert_eq!(paths.get((2, 0)), Some(&(2, 1)));
    assert_eq!(paths.get((1, 0)), Some(&(1, 1)));
    assert_eq!(paths.get((1, 1)), Some(&(1, 1)));
}

#[test]
fn exploring_twice_gives_the_same() {
    let terrain = sample_map();
    let first = compute_path_costs((2, 2), &terrain, 7, 6, 6);
    let second = compute_path_costs((2, 2), &terrain, 7, 6, 6);
    for x in 0..7u32 {
        for y in 0..6u32 {
            let c = (x, y);
            assert_eq!(first.0.get(c), second.0.get(c));
            assert_eq!(first.1.get(c), second.1.get(c));
            assert_eq!(first.2.contains(c), second.2.contains(c));
            assert_eq!(first.3.contains(c), second.3.contains(c));
        }
    }
    assert_eq!(first.0.len(), second.0.len());
    assert_eq!(first.3.len(), second.3.len());
}

#[test]
fn a_large_budget_is_no_trouble() {
    let terrain = sample_map();
    let (_paths, costs, _boundary, reachable) =
        compute_path_costs((0, 0), &terrain, 7, 6, u32::MAX);
    assert_eq!(reachable.len(), 36);
    let best = cheapest(&terrain, (0, 0), 7, 6);
    for x in 0..7u32 {
        for y in 0..6u32 {
            assert_eq!(costs.get((x, y)).map(halves), best[x as usize][y as usize]);
        }
    }
}
