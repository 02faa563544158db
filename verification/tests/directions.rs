use feg::coords::CoordSet;
use feg::grid::has_shape;
use feg::pathfinding::find_boundary_neighbor_directions;
use feg::pathfinding::is_point_valid;
use feg::pathfinding::neighbor_costs;
use feg::pathfinding::relative_adj_dir;
use feg::pathfinding::valid_neighbor_coords;
use feg::pathfinding::Direction;
use feg::terrain::Terrain;

fn set_of(cells: &[(u32, u32)]) -> CoordSet {
    let mut set = CoordSet::new();
    for c in cells {
        set.insert(*c);
    }
    set
}

#[test]
fn points_on_the_map_are_valid() {
    assert!(is_point_valid((0, 0), 10, 10));
    assert!(is_point_valid((9, 9), 10, 10));
    assert!(!is_point_valid((10, 0), 10, 10));
    assert!(!is_point_valid((0, 10), 10, 10));
    assert!(!is_point_valid((0, 0), 0, 0));
}

#[test]
fn neighbours_come_west_east_north_south() {
    assert_eq!(
        valid_neighbor_coords((3, 3), 10, 10),
        vec![(2, 3), (4, 3), (3, 2), (3, 4)]
    );
    assert_eq!(valid_neighbor_coords((0, 0), 10, 10), vec![(1, 0), (0, 1)]);
    assert_eq!(valid_neighbor_coords((9, 9), 10, 10), vec![(8, 9), (9, 8)]);
    assert_eq!(valid_neighbor_coords((10, 4), 10, 10), vec![(9, 4)]);
    assert_eq!(valid_neighbor_coords((0, 0), 1, 1), vec![]);
    assert_eq!(
        valid_neighbor_coords((u32::MAX, u32::MAX), u32::MAX, u32::MAX),
        vec![]
    );
}

#[test]
fn walls_are_no_neighbours_to_step_onto() {
    let mut terrain = vec![vec![Terrain::Open; 3]; 3];
    terrain[0][1] = Terrain::Wall;
    terrain[1][2] = Terrain::Sand;
    let found: Vec<((u32, u32), (i64, i64))> = neighbor_costs((1, 1), &terrain, 3, 3)
        .into_iter()
        .map(|(c, price)| (c, (price.numer(), price.denom())))
        .collect();
    assert_eq!(
        found,
        vec![((2, 1), (1, 1)), ((1, 0), (1, 1)), ((1, 2), (5, 2))]
    );
}

#[test]
fn directions_of_adjacent_cells() {
    assert_eq!(relative_adj_dir((3, 3), (3, 2)), Direction::N);
    assert_eq!(relative_adj_dir((3, 3), (3, 4)), Direction::S);
    assert_eq!(relative_adj_dir((3, 3), (2, 3)), Direction::W);
    assert_eq!(relative_adj_dir((3, 3), (4, 3)), Direction::E);
}

#[test]
fn a_lone_cell_is_open_on_all_sides() {
    let boundary = set_of(&[(3, 3)]);
    let reachable = set_of(&[(3, 3)]);
    let tagged = find_boundary_neighbor_directions(&boundary, &reachable, 10, 10);
    assert_eq!(
        tagged,
        vec![(
            (3, 3),
            vec![Direction::N, Direction::S, Direction::E, Direction::W]
        )]
    );
}

#[test]
fn reachable_neighbours_close_a_side() {
    let boundary = set_of(&[(3, 3)]);
    let reachable = set_of(&[(3, 3), (3, 2), (4, 3)]);
    let tagged = find_boundary_neighbor_directions(&boundary, &reachable, 10, 10);
    assert_eq!(tagged, vec![((3, 3), vec![Direction::S, Direction::W])]);
}

#[test]
fn the_edge_of_the_map_is_an_open_side() {
    let boundary = set_of(&[(0, 0)]);
    let reachable = set_of(&[(0, 0), (1, 0), (0, 1)]);
    let tagged = find_boundary_neighbor_directions(&boundary, &reachable, 10, 10);
    assert_eq!(tagged, vec![((0, 0), vec![Direction::N, Direction::W])]);
    let boundary = set_of(&[(9, 9)]);
    let reachable = set_of(&[(9, 9), (8, 9), (9, 8)]);
    let tagged = find_boundary_neighbor_directions(&boundary, &reachable, 10, 10);
    assert_eq!(tagged, vec![((9, 9), vec![Direction::S, Direction::E])]);
}

#[test]
fn every_boundary_cell_is_tagged_once() {
    let cells = [(1, 1), (2, 2), (5, 7), (0, 9)];
    let boundary = set_of(&cells);
    let reachable = set_of(&[(1, 1), (2, 2), (5, 7), (0, 9), (1, 2), (2, 1)]);
    let mut tagged = find_boundary_neighbor_directions(&boundary, &reachable, 10, 10);
    tagged.sort_by_key(|entry| entry.0);
    assert_eq!(
        tagged,
        vec![
            ((0, 9), vec![Direction::N, Direction::S, Direction::E, Direction::W]),
            ((1, 1), vec![Direction::N, Direction::W]),
            ((2, 2), vec![Direction::S, Direction::E]),
            ((5, 7), vec![Direction::N, Direction::S, Direction::E, Direction::W]),
        ]
    );
}

#[test]
fn an_empty_boundary_has_no_tags() {
    let boundary = CoordSet::new();
    let reachable = set_of(&[(1, 1)]);
    assert_eq!(
        find_boundary_neighbor_directions(&boundary, &reachable, 10, 10),
        vec![]
    );
}

#[test]
fn a_matrix_has_the_shape_of_its_columns() {
    let terrain = vec![vec![Terrain::Open; 3]; 4];
    assert!(has_shape(&terrain, 4, 3));
    assert!(!has_shape(&terrain, 3, 4));
    assert!(!has_shape(&terrain, 4, 2));
    assert!(!has_shape(&terrain, 5, 3));
    let mut ragged = terrain.clone();
    ragged[2].push(Terrain::Wall);
    assert!(!has_shape(&ragged, 4, 3));
    assert!(has_shape(&Vec::new(), 0, 7));
}
