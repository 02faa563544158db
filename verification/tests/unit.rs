use feg::coords::CoordMap;
use feg::coords::CoordSet;
use feg::cost::Cost;
use feg::terrain::Terrain;
use feg::unit::Unit;

fn map() -> Vec<Vec<Terrain>> {
    let mut terrain = vec![vec![Terrain::Open; 10]; 10];
    terrain[4][3] = Terrain::Sand;
    terrain[3][4] = Terrain::Wall;
    terrain
}

#[test]
fn a_new_unit_holds_what_it_is_given() {
    let mut paths = CoordMap::new();
    paths.insert((3, 3), (3, 3));
    let mut costs = CoordMap::new();
    costs.insert((3, 3), Cost::zero());
    let mut boundary = CoordSet::new();
    boundary.insert((3, 3));
    let mut reachable = CoordSet::new();
    reachable.insert((3, 3));
    let unit = Unit::new(1, 5, (3, 3), paths, costs, boundary, reachable);
    assert_eq!(unit.id, 1);
    assert_eq!(unit.movement_range, 5);
    assert_eq!(unit.location, (3, 3));
    assert_eq!(unit.paths.get((3, 3)), Some(&(3, 3)));
    assert_eq!(unit.costs.get((3, 3)), Some(&Cost::zero()));
    assert!(unit.boundary.contains((3, 3)));
    assert!(unit.reachable_coords.contains((3, 3)));
    assert_eq!(unit.reachable().len(), 1);
}

#[test]
fn a_created_unit_has_explored_the_map() {
    let terrain = map();
    let unit = Unit::create(1, 2, (3, 3), &terrain, 10, 10);
    assert_eq!(unit.id, 1);
    assert_eq!(unit.movement_range, 2);
    assert_eq!(unit.location, (3, 3));
    assert_eq!(unit.cost_to((3, 3)), Some(Cost::zero()));
    assert_eq!(unit.cost_to((3, 1)), Some(Cost::from_integer(2)));
    assert_eq!(unit.cost_to((4, 3)), None);
    assert_eq!(unit.cost_to((3, 4)), None);
    assert_eq!(unit.cost_to((3, 5)), None);
    assert_eq!(unit.cost_to((2, 4)), Some(Cost::from_integer(2)));
    assert!(unit.reachable().contains((1, 3)));
    assert!(!unit.reachable().contains((0, 3)));
    assert_eq!(unit.path_to((2, 4)), vec![(3, 3), (2, 3), (2, 4)]);
    assert_eq!(unit.path_to((9, 9)), vec![]);
}

#[test]
fn a_change_explores_anew() {
    let mut terrain = map();
    let mut unit = Unit::create(7, 2, (3, 3), &terrain, 10, 10);
    unit.set_budget(3, &terrain, 10, 10);
    assert_eq!(unit.id, 7);
    assert_eq!(unit.movement_range, 3);
    assert_eq!(unit.location, (3, 3));
    assert_eq!(unit.cost_to((4, 3)), Some(Cost::five_halves()));
    assert_eq!(unit.cost_to((0, 3)), Some(Cost::from_integer(3)));
    unit.relocate((0, 0), &terrain, 10, 10);
    assert_eq!(unit.location, (0, 0));
    assert_eq!(unit.movement_range, 3);
    assert_eq!(unit.cost_to((0, 0)), Some(Cost::zero()));
    assert_eq!(unit.cost_to((3, 3)), None);
    assert_eq!(unit.cost_to((2, 1)), Some(Cost::from_integer(3)));
    assert_eq!(unit.reachable().len(), 10);
    terrain[1][0] = Terrain::Wall;
    terrain[0][1] = Terrain::Wall;
    unit.on_terrain_changed(&terrain, 10, 10);
    assert_eq!(unit.reachable().to_vec(), vec![(0, 0)]);
    assert_eq!(unit.location, (0, 0));
}
