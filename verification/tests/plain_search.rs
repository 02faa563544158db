use feg::cost::Cost;
use feg::pathfinding::compute_path_costs;
use feg::terrain::Terrain;
use std::cmp::Ordering;
use std::collections::{BinaryHeap, HashMap, HashSet};

// A plain search with the queue of the standard library, prices counted in
// halves, to hold the library's exploration against.

#[derive(Copy, Clone, Eq, PartialEq, Debug)]
struct Waiting {
    dist: i64,
    pos: (u32, u32),
}

impl PartialOrd for Waiting {
    fn partial_cmp(&self, other: &Waiting) -> Option<Ordering> {
        Some(self.cmp(other))
    }
}

impl Ord for Waiting {
    fn cmp(&self, other: &Waiting) -> Ordering {
        other
            .dist
            .cmp(&self.dist)
            .then_with(|| self.pos.cmp(&other.pos))
    }
}

fn steps(
    point: (u32, u32),
    terrain: &Vec<Vec<Terrain>>,
    w: u32,
    h: u32,
) -> Vec<((u32, u32), i64)> {
    let (x, y) = point;
    let mut around = Vec::new();
    if x >= 1 {
        around.push((x - 1, y));
    }
    around.push((x + 1, y));
    if y >= 1 {
        around.push((x, y - 1));
    }
    around.push((x, y + 1));
    around
        .into_iter()
        .filter(|c| c.0 < w && c.1 < h)
        .filter_map(|c| match terrain[c.0 as usize][c.1 as usize] {
            Terrain::Wall => None,
            Terrain::Sand => Some((c, 5)),
            Terrain::Open => Some((c, 2)),
        })
        .collect()
}

fn plain_search(
    src: (u32, u32),
    terrain: &Vec<Vec<Terrain>>,
    w: u32,
    h: u32,
    budget: u32,
) -> (
    HashMap<(u32, u32), (u32, u32)>,
    HashMap<(u32, u32), i64>,
    HashSet<(u32, u32)>,
    HashSet<(u32, u32)>,
) {
    let mut frontier = BinaryHeap::new();
    frontier.push(Waiting { dist: 0, pos: src });
    let mut came_from = HashMap::new();
    came_from.insert(src, src);
    let mut cost_so_far = HashMap::new();
    cost_so_far.insert(src, 0);
    let mut boundary = HashSet::new();
    let mut reachable = HashSet::new();
    while let Some(current) = frontier.pop() {
        boundary.remove(&came_from[&current.pos]);
        boundary.insert(current.pos);
        reachable.insert(current.pos);
        for (next, price) in steps(current.pos, terrain, w, h) {
            let new_cost = cost_so_far[&current.pos] + price;
            if new_cost <= 2 * budget as i64
                && (!cost_so_far.contains_key(&next) || new_cost < cost_so_far[&next])
            {
                cost_so_far.insert(next, new_cost);
                frontier.push(Waiting {
                    dist: new_cost,
                    pos: next,
                });
                came_from.insert(next, current.pos);
            }
        }
    }
    (came_from, cost_so_far, boundary, reachable)
}

struct Dice(u64);

impl Dice {
    fn roll(&mut self, sides: u32) -> u32 {
        self.0 = self
            .0
            .wrapping_mul(6364136223846793005)
            .wrapping_add(1442695040888963407);
        ((self.0 >> 33) % sides as u64) as u32
    }
}

fn halves(c: &Cost) -> i64 {
    if c.denom() == 1 {
        2 * c.numer()
    } else {
        c.numer()
    }
}

#[test]
fn the_exploration_agrees_with_a_plain_search() {
    let mut dice = Dice(2018);
    for _ in 0..300 {
        let w = 1 + dice.roll(8);
        let h = 1 + dice.roll(8);
        let mut terrain = vec![vec![Terrain::Open; h as usize]; w as usize];
        for x in 0..w {
            for y in 0..h {
                terrain[x as usize][y as usize] = match dice.roll(6) {
                    0 => Terrain::Wall,
                    1 | 2 => Terrain::Sand,
                    _ => Terrain::Open,
                };
            }
        }
        let src = (dice.roll(w), dice.roll(h));
        let budget = dice.roll(12);
        let (paths, costs, boundary, reachable) = compute_path_costs(src, &terrain, w, h, budget);
        let (came_from, cost_so_far, max_boundary, reachable_coords) =
            plain_search(src, &terrain, w, h, budget);
        assert_eq!(paths.len(), came_from.len());
        assert_eq!(costs.len(), cost_so_far.len());
        assert_eq!(boundary.len(), max_boundary.len());
        assert_eq!(reachable.len(), reachable_coords.len());
        for x in 0..w {
            for y in 0..h {
                let c = (x, y);
                assert_eq!(paths.get(c), came_from.get(&c));
                assert_eq!(costs.get(c).map(halves), cost_so_far.get(&c).copied());
                assert_eq!(boundary.contains(c), max_boundary.contains(&c));
                assert_eq!(reachable.contains(c), reachable_coords.contains(&c));
            }
        }
    }
}
