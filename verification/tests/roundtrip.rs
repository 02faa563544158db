use feg::coords::CoordMap;
use feg::pathfinding::chain_ends;
use feg::pathfinding::compute_path_costs;
use feg::pathfinding::consolidate_path;
use feg::pathfinding::find_boundary_neighbor_directions;
use feg::pathfinding::get_path;
use feg::pathfinding::Direction;
use feg::terrain::Terrain;

// The cells of the polyline through `points`, cell by cell.
fn unfold(points: &[(u32, u32)]) -> Vec<(u32, u32)> {
    let mut out = Vec::new();
    if let Some(first) = points.first() {
        out.push(*first);
    }
    for pair in points.windows(2) {
        let (a, b) = (pair[0], pair[1]);
        let mut c = a;
        while c != b {
            if c.0 < b.0 {
                c.0 += 1;
            } else if c.0 > b.0 {
                c.0 -= 1;
            } else if c.1 < b.1 {
                c.1 += 1;
            } else {
                c.1 -= 1;
            }
            out.push(c);
        }
    }
    out
}

fn winding_map() -> Vec<Vec<Terrain>> {
    let rows = ["00000", "wwww0", "00000", "0wwww", "00000"];
    let mut terrain = vec![vec![Terrain::Open; 5]; 5];
    for (y, row) in rows.iter().enumerate() {
        for (x, ch) in row.chars().enumerate() {
            if ch == 'w' {
                terrain[x][y] = Terrain::Wall;
            }
        }
    }
    terrain
}

#[test]
fn unfolding_a_consolidated_path_gives_it_back() {
    let terrain = winding_map();
    let src = (0, 0);
    let (paths, _costs, _boundary, reachable) = compute_path_costs(src, &terrain, 5, 5, 20);
    assert_eq!(reachable.len(), 17);
    for c in reachable.to_vec() {
        let path = get_path(c, &paths);
        let cpath = consolidate_path(path.clone());
        assert_eq!(cpath[0], src);
        assert_eq!(cpath[cpath.len() - 1], c);
        assert_eq!(unfold(&cpath), path);
    }
    let far = consolidate_path(get_path((4, 4), &paths));
    assert_eq!(far, vec![(0, 0), (4, 0), (4, 2), (0, 2), (0, 4), (4, 4)]);
}

#[test]
fn a_repeated_point_is_kept_once() {
    assert_eq!(consolidate_path(vec![(0, 0), (0, 0)]), vec![(0, 0)]);
    assert_eq!(
        consolidate_path(vec![(0, 0), (0, 1), (1, 1)]),
        vec![(0, 0), (0, 1), (1, 1)]
    );
}

#[test]
fn a_chain_that_leaves_the_map_of_back_pointers_ends_there() {
    let mut paths = CoordMap::new();
    paths.insert((2, 1), (1, 1));
    paths.insert((1, 1), (0, 1));
    assert_eq!(get_path((2, 1), &paths), vec![(0, 1), (1, 1), (2, 1)]);
    assert_eq!(get_path((0, 1), &paths), vec![]);
    assert_eq!(get_path((7, 7), &paths), vec![]);
}

#[test]
fn open_sides_face_cells_that_are_not_reachable() {
    let terrain = winding_map();
    let (_paths, _costs, boundary, reachable) = compute_path_costs((2, 2), &terrain, 5, 5, 3);
    let tagged = find_boundary_neighbor_directions(&boundary, &reachable, 5, 5);
    assert_eq!(tagged.len(), boundary.len());
    for (c, open) in tagged {
        assert!(boundary.contains(c));
        for d in [Direction::N, Direction::S, Direction::E, Direction::W] {
            let neighbour = match d {
                Direction::N if c.1 >= 1 => Some((c.0, c.1 - 1)),
                Direction::S if c.1 + 1 < 5 => Some((c.0, c.1 + 1)),
                Direction::E if c.0 + 1 < 5 => Some((c.0 + 1, c.1)),
                Direction::W if c.0 >= 1 => Some((c.0 - 1, c.1)),
                _ => None,
            };
            let shut = neighbour.map_or(false, |n| reachable.contains(n));
            assert_eq!(open.contains(&d), !shut);
        }
    }
}

#[test]
fn chains_of_an_exploration_end() {
    let terrain = winding_map();
    let (paths, _costs, _boundary, _reachable) = compute_path_costs((0, 0), &terrain, 5, 5, 20);
    for x in 0..6u32 {
        for y in 0..6u32 {
            assert!(chain_ends((x, y), &paths));
        }
    }
}

#[test]
fn chains_that_run_in_a_circle_do_not_end() {
    let mut paths = CoordMap::new();
    paths.insert((0, 0), (0, 1));
    paths.insert((0, 1), (1, 1));
    paths.insert((1, 1), (0, 0));
    paths.insert((5, 5), (0, 0));
    paths.insert((7, 7), (7, 7));
    paths.insert((7, 8), (7, 7));
    paths.insert((3, 3), (4, 4));
    assert!(!chain_ends((0, 0), &paths));
    assert!(!chain_ends((1, 1), &paths));
    assert!(!chain_ends((5, 5), &paths));
    assert!(chain_ends((7, 7), &paths));
    assert!(chain_ends((7, 8), &paths));
    assert!(chain_ends((3, 3), &paths));
    assert!(chain_ends((4, 4), &paths));
    assert!(chain_ends((9, 9), &paths));
    let mut pair = CoordMap::new();
    pair.insert((0, 0), (0, 1));
    pair.insert((0, 1), (0, 0));
    assert!(!chain_ends((0, 0), &pair));
    assert!(chain_ends((1, 0), &CoordMap::new()));
}
