use search_rl::env::{Action, ActionMap, State};
use search_rl::hex::{Cell, Hex};
use std::ops::{Index, IndexMut};

#[test]
fn action_index_is_its_position() {
    assert_eq!(Action(0).index(), 0);
    assert_eq!(Action(17).index(), 17);
    assert!(Action(1) < Action(2));
    assert_eq!(Action(3), Action(3));
}

#[test]
fn action_map_keeps_the_order_of_its_items() {
    let map = ActionMap::new(vec![10, 20, 30]);
    assert_eq!(map.len(), 3);
    assert!(!map.is_empty());
    assert_eq!(map.as_slice(), &[10, 20, 30]);
    assert_eq!(map[Action(0)], 10);
    assert_eq!(*map.index(Action(2)), 30);
    assert_eq!(map.last(), Some(&30));
    assert_eq!(map.iter(), vec![&10, &20, &30]);
    assert_eq!(
        map.action_value_iter(),
        vec![(Action(0), &10), (Action(1), &20), (Action(2), &30)]
    );
}

#[test]
fn empty_action_map() {
    let map: ActionMap<u8> = ActionMap::new(Vec::new());
    assert_eq!(map.len(), 0);
    assert!(map.is_empty());
    assert_eq!(map.last(), None);
    assert!(map.iter().is_empty());
    assert!(map.action_value_iter().is_empty());
}

#[test]
fn action_map_items_change_in_place() {
    let mut map = ActionMap::new(vec![1, 2, 3]);
    *map.index_mut(Action(1)) = 7;
    map[Action(2)] += 1;
    assert_eq!(map.as_slice(), &[1, 7, 4]);
    for item in map.iter_mut() {
        *item *= 2;
    }
    assert_eq!(map.as_slice(), &[2, 14, 8]);
    assert_eq!(map.len(), 3);
}

#[test]
fn action_map_items_change_in_place_by_action() {
    let mut map = ActionMap::new(vec![5, 6, 7]);
    for (action, item) in map.action_value_iter_mut() {
        *item += 10 * action.index();
    }
    assert_eq!(map.as_slice(), &[5, 16, 27]);
    let items = map.action_value_iter_mut();
    assert_eq!(items.len(), 3);
    assert_eq!(items[2].0, Action(2));
    let mut empty: ActionMap<u8> = ActionMap::new(Vec::new());
    assert!(empty.action_value_iter_mut().is_empty());
}

#[test]
fn action_iter_restarts_with_the_same_actions() {
    let mut hex = Hex::<3>::default();
    assert_eq!(hex.action_iter(), Vec::<Action>::new());
    hex.next_take_cell(Cell(0, 0));
    hex.next_take_cell(Cell(1, 1));
    hex.next_take_cell(Cell(2, 0));
    let first = hex.action_iter();
    let second = hex.action_iter();
    assert_eq!(first, vec![Action(0), Action(1), Action(2)]);
    assert_eq!(first, second);
    assert_eq!(hex.clone().action_iter(), first);
    assert_eq!(hex.action_count(), 3);
}
