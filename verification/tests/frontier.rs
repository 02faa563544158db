use feg::cost::Cost;
use feg::frontier::DaState;
use feg::frontier::Frontier;
use std::cmp::Ordering;

#[test]
fn cheaper_entries_are_greater() {
    let near = DaState::new(Cost::one(), (0, 0));
    let far = DaState::new(Cost::five_halves(), (9, 9));
    assert_eq!(near.cmp(&far), Ordering::Greater);
    assert_eq!(far.cmp(&near), Ordering::Less);
    assert!(near.precedes(&far));
    assert!(!far.precedes(&near));
}

#[test]
fn equal_prices_are_ordered_by_cell() {
    let a = DaState::new(Cost::one(), (1, 5));
    let b = DaState::new(Cost::one(), (2, 0));
    let c = DaState::new(Cost::one(), (2, 3));
    assert_eq!(b.cmp(&a), Ordering::Greater);
    assert_eq!(c.cmp(&b), Ordering::Greater);
    assert_eq!(a.cmp(&c), Ordering::Less);
    assert_eq!(a.cmp(&a), Ordering::Equal);
    assert!(!a.precedes(&a));
}

#[test]
fn the_frontier_hands_out_the_cheapest_first() {
    let mut frontier = Frontier::new();
    assert!(frontier.is_empty());
    assert_eq!(frontier.pop(), None);
    frontier.push(DaState::new(Cost::from_integer(3), (0, 0)));
    frontier.push(DaState::new(Cost::five_halves(), (1, 1)));
    frontier.push(DaState::new(Cost::from_integer(2), (4, 4)));
    frontier.push(DaState::new(Cost::five_halves(), (1, 2)));
    frontier.push(DaState::new(Cost::five_halves(), (0, 7)));
    assert!(!frontier.is_empty());
    assert_eq!(frontier.pop(), Some(DaState::new(Cost::from_integer(2), (4, 4))));
    assert_eq!(frontier.pop(), Some(DaState::new(Cost::five_halves(), (1, 2))));
    assert_eq!(frontier.pop(), Some(DaState::new(Cost::five_halves(), (1, 1))));
    assert_eq!(frontier.pop(), Some(DaState::new(Cost::five_halves(), (0, 7))));
    assert_eq!(frontier.pop(), Some(DaState::new(Cost::from_integer(3), (0, 0))));
    assert_eq!(frontier.pop(), None);
    assert!(frontier.is_empty());
}
