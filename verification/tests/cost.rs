use feg::cost::Cost;
use feg::terrain::Terrain;

fn pair(c: Cost) -> (i64, i64) {
    (c.numer(), c.denom())
}

#[test]
fn zero_is_zero_over_one() {
    assert_eq!(pair(Cost::zero()), (0, 1));
}

#[test]
fn whole_numbers_have_denominator_one() {
    assert_eq!(pair(Cost::from_integer(3)), (3, 1));
    assert_eq!(pair(Cost::from_integer(0)), (0, 1));
    assert_eq!(pair(Cost::from_integer(u32::MAX)), (4294967295, 1));
}

#[test]
fn one_is_one_over_one() {
    assert_eq!(pair(Cost::one()), (1, 1));
}

#[test]
fn five_halves_is_in_lowest_terms() {
    assert_eq!(pair(Cost::five_halves()), (5, 2));
}

#[test]
fn terrain_costs() {
    assert_eq!(pair(Terrain::Open.cost()), (1, 1));
    assert_eq!(pair(Terrain::Sand.cost()), (5, 2));
}

#[test]
fn passable_is_all_but_wall() {
    assert!(Terrain::Open.is_passable());
    assert!(Terrain::Sand.is_passable());
    assert!(!Terrain::Wall.is_passable());
}

#[test]
fn sums_are_reduced() {
    let half_steps = Cost::five_halves().plus(Cost::five_halves());
    assert_eq!(pair(half_steps), (5, 1));
    let mixed = Cost::one().plus(Cost::five_halves());
    assert_eq!(pair(mixed), (7, 2));
    let whole = Cost::from_integer(2).plus(Cost::one());
    assert_eq!(pair(whole), (3, 1));
    let other_way = Cost::five_halves().plus(Cost::one());
    assert_eq!(pair(other_way), (7, 2));
    assert_eq!(pair(Cost::zero().plus(Cost::five_halves())), (5, 2));
}

#[test]
fn costs_compare_by_value() {
    let two = Cost::from_integer(2);
    let three = Cost::from_integer(3);
    let five_halves = Cost::five_halves();
    assert!(two.lt(&five_halves));
    assert!(five_halves.lt(&three));
    assert!(!five_halves.lt(&two));
    assert!(!five_halves.le(&two));
    assert!(five_halves.le(&three));
    assert!(five_halves.le(&five_halves));
    assert!(!five_halves.lt(&five_halves));
    assert!(two.le(&two));
    let five = five_halves.plus(five_halves);
    assert!(five.le(&Cost::from_integer(5)));
    assert!(!five.lt(&Cost::from_integer(5)));
    assert_eq!(five, Cost::from_integer(5));
}
