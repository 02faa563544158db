use feg::coords::CoordMap;
use feg::pathfinding::consolidate_path;
use feg::pathfinding::get_path;

fn sample_paths() -> CoordMap<(u32, u32)> {
    let mut paths = CoordMap::new();
    paths.insert((2, 1), (1, 1));
    paths.insert((1, 1), (0, 0));
    paths.insert((0, 0), (0, 0));
    paths
}

#[test]
fn test_get_path_src() {
    let paths = sample_paths();
    assert_eq!(get_path((0, 0), &paths), vec![(0, 0)]);
}

#[test]
fn test_get_path_1() {
    let paths = sample_paths();
    assert_eq!(get_path((1, 1), &paths), vec![(0, 0), (1, 1)]);
}

#[test]
fn test_get_path_2() {
    let paths = sample_paths();
    assert_eq!(get_path((2, 1), &paths), vec![(0, 0), (1, 1), (2, 1)]);
}

#[test]
fn test_consolidate_path_simple_1() {
    let path = vec![];
    let cpath = consolidate_path(path);
    assert_eq!(cpath, vec![]);
}

#[test]
fn test_consolidate_path_simple_2() {
    let path = vec![(0, 0)];
    let cpath = consolidate_path(path);
    assert_eq!(cpath, vec![(0, 0)]);
}

#[test]
fn test_consolidate_path_simple_3() {
    let path = vec![(0, 0), (1, 0)];
    let cpath = consolidate_path(path);
    assert_eq!(cpath, vec![(0, 0), (1, 0)]);
}

#[test]
fn test_consolidate_path_simple_4() {
    let path = vec![(0, 0), (1, 0), (2, 0)];
    let cpath = consolidate_path(path);
    assert_eq!(cpath, vec![(0, 0), (2, 0)]);
}

#[test]
fn test_consolidate_path_with_turn_1() {
    let path = vec![(0, 0), (1, 0), (2, 0), (2, 1)];
    let cpath = consolidate_path(path);
    assert_eq!(cpath, vec![(0, 0), (2, 0), (2, 1)]);
}

#[test]
fn test_consolidate_path_with_turn_2() {
    let path = vec![
        (1, 0),
        (2, 0),
        (3, 0),
        (4, 0),
        (5, 0),
        (6, 0),
        (6, 1),
        (6, 2),
        (5, 2),
        (4, 2),
    ];
    let cpath = consolidate_path(path);
    assert_eq!(cpath, vec![(1, 0), (6, 0), (6, 2), (4, 2)]);
}
