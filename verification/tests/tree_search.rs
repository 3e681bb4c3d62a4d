use search_rl::env::{Action, State};
use search_rl::hex::Hex;
use search_rl::mcts::{EpisodeError, Node, NodeRef, Nodes, Temperature, Tree};
use search_rl::value::Value;
use std::ops::Index;

/// A game of three moves with two actions each; the last move decides:
/// action 0 wins for the first player, action 1 for the second.
#[derive(Debug, Clone, PartialEq)]
struct Walk {
    path: Vec<usize>,
}

impl vstd::view::View for Walk {
    type V = Vec<usize>;

    fn view(&self) -> Vec<usize> {
        self.path.clone()
    }
}

impl State<2> for Walk {
    fn inv(_: Vec<usize>) -> bool {
        panic!()
    }

    fn spec_init() -> Vec<usize> {
        panic!()
    }

    fn spec_action_count(_: Vec<usize>) -> vstd::prelude::nat {
        panic!()
    }

    fn spec_take(_: Vec<usize>, _: Action) -> Vec<usize> {
        panic!()
    }

    fn spec_reward(_: Vec<usize>) -> Option<Value> {
        panic!()
    }

    fn spec_value(_: Vec<usize>, _: Action, _: Value) -> Value {
        panic!()
    }

    fn spec_as_array(_: Vec<usize>) -> vstd::prelude::Seq<vstd::prelude::Seq<i32>> {
        panic!()
    }

    fn init() -> Self {
        Walk { path: Vec::new() }
    }

    fn action_count(&self) -> usize {
        2
    }

    fn take(&self, action: Action) -> Self {
        let mut path = self.path.clone();
        path.push(action.index());
        Walk { path }
    }

    fn reward(&self) -> Option<Value> {
        if self.path.len() < 3 {
            None
        } else if self.path[2] == 0 {
            Some(Value::from_micros(1_000_000))
        } else {
            Some(Value::from_micros(-1_000_000))
        }
    }

    fn value(&self, _taken: Action, value: Value) -> Value {
        value.neg()
    }

    fn as_array(&self) -> [[i32; 2]; 2] {
        let mut array = [[-1; 2]; 2];
        for (at, step) in self.path.iter().enumerate() {
            array[at / 2][at % 2] = *step as i32;
        }
        array
    }
}

fn v(micros: i64) -> Value {
    Value::from_micros(micros)
}

#[test]
fn new_node_is_unexpanded_and_unvisited() {
    let node = Node::<2, Walk>::new(Walk::init());
    assert_eq!(node.visit_count(), 0);
    assert_eq!(*node.reward(), None);
    assert!(!node.has_actions());
    assert_eq!(node.state(), &Walk { path: vec![] });
    let terminal = Node::<2, Walk>::new(Walk { path: vec![1, 1, 0] });
    assert_eq!(*terminal.reward(), Some(v(1_000_000)));
}

#[test]
fn init_actions_expands_once() {
    let mut node = Node::<2, Walk>::new(Walk::init());
    node.init_actions(NodeRef(5));
    assert!(node.has_actions());
    assert_eq!(node.actions().as_slice(), &[NodeRef(5), NodeRef(6)]);
    let stats = node.action_stats();
    assert_eq!(stats.len(), 2);
    for entry in stats.iter() {
        assert_eq!(entry.count, 0);
        assert_eq!(entry.total_value, v(0));
        assert_eq!(entry.prior, v(500_000));
    }
    node.init_actions(NodeRef(40));
    assert_eq!(node.actions().as_slice(), &[NodeRef(5), NodeRef(6)]);
    assert_eq!(node.visit_count(), 0);
}

#[test]
fn node_selects_the_first_of_tied_actions() {
    let mut node = Node::<2, Walk>::new(Walk::init());
    node.init_actions(NodeRef(1));
    assert_eq!(node.select_action(v(3_000_000)), (Action(0), NodeRef(1)));
}

#[test]
fn node_samples_by_the_draw() {
    let mut node = Node::<2, Walk>::new(Walk::init());
    node.init_actions(NodeRef(1));
    let unit = Temperature::from_inverse(1);
    assert_eq!(node.action_probability(unit).as_slice(), &[v(0), v(0)]);
    assert_eq!(node.sample_action_with(unit, v(0)), (Action(0), NodeRef(1)));
    assert_eq!(node.sample_action_with(unit, v(1)), (Action(1), NodeRef(2)));
    assert_eq!(node.sample_action_with(unit, v(999_999)), (Action(1), NodeRef(2)));
    let flat = Temperature::from_inverse(0);
    assert_eq!(node.action_probability(flat).as_slice(), &[v(500_000), v(500_000)]);
    assert_eq!(node.sample_action_with(flat, v(500_000)), (Action(0), NodeRef(1)));
    assert_eq!(node.sample_action_with(flat, v(500_001)), (Action(1), NodeRef(2)));
    assert_eq!(node.sample_action_with(flat, v(999_999)), (Action(1), NodeRef(2)));
    let (action, child) = node.sample_action(unit);
    assert!(action.index() < 2);
    assert_eq!(child, NodeRef(1 + action.index()));
}

#[test]
fn new_arena_holds_the_root() {
    let (root, nodes) = Nodes::<2, Walk>::new();
    assert_eq!(root, NodeRef(0));
    assert_eq!(nodes.len(), 1);
    assert_eq!(nodes[root].state(), &Walk::init());
    assert!(!nodes[root].has_actions());
    assert_eq!(Nodes::<2, Walk>::default().len(), 0);
}

#[test]
fn select_action_expands_a_node_once() {
    let (root, mut nodes) = Nodes::<2, Walk>::new();
    assert_eq!(nodes.select_action(root), (Action(0), NodeRef(1)));
    assert_eq!(nodes.len(), 3);
    assert!(nodes[root].has_actions());
    assert_eq!(nodes[root].actions().as_slice(), &[NodeRef(1), NodeRef(2)]);
    assert_eq!(nodes[NodeRef(1)].state(), &Walk { path: vec![0] });
    assert_eq!(nodes[NodeRef(2)].state(), &Walk { path: vec![1] });
    assert!(!nodes[NodeRef(1)].has_actions());
    assert_eq!(nodes.select_action(root), (Action(0), NodeRef(1)));
    assert_eq!(nodes.len(), 3);
    assert_eq!(nodes.select_action(NodeRef(2)), (Action(0), NodeRef(3)));
    assert_eq!(nodes.len(), 5);
    assert_eq!(nodes.index(NodeRef(4)).state(), &Walk { path: vec![1, 1] });
    assert_eq!(nodes[root].actions().as_slice(), &[NodeRef(1), NodeRef(2)]);
}

#[test]
fn sample_action_expands_and_follows_the_draw() {
    let (root, mut nodes) = Nodes::<2, Walk>::new();
    let unit = Temperature::from_inverse(1);
    assert_eq!(nodes.sample_action_with(root, unit, v(500_000)), (Action(1), NodeRef(2)));
    assert_eq!(nodes.len(), 3);
    assert_eq!(nodes.sample_action_with(root, unit, v(0)), (Action(0), NodeRef(1)));
    assert_eq!(nodes.len(), 3);
    let (action, child) = nodes.sample_action(NodeRef(1), unit);
    assert_eq!(nodes.len(), 5);
    assert_eq!(child, NodeRef(3 + action.index()));
}

#[test]
fn simulate_from_an_unvisited_node_changes_nothing() {
    let mut tree = Tree::<2, Walk>::new();
    let root = tree.root_ref();
    tree.simulate(root, 0);
    tree.simulate(root, 25);
    assert_eq!(tree.nodes().len(), 1);
    assert_eq!(tree.nodes()[root].visit_count(), 0);
    assert!(!tree.nodes()[root].has_actions());
    assert_eq!(tree.root_ref(), NodeRef(0));
    let fresh = Tree::<2, Walk>::default();
    assert_eq!(fresh.nodes().len(), 1);
}

#[test]
fn episode_plays_to_the_end_and_carries_the_outcome_back() {
    let mut tree = Tree::<2, Walk>::new();
    let unit = Temperature::from_inverse(1);
    let draws = vec![v(500_000); 10];
    let examples = tree.execute_episode_with(4, unit, &draws).unwrap();
    assert_eq!(examples.len(), 3);
    assert_eq!(examples[0].state, [[-1, -1], [-1, -1]]);
    assert_eq!(examples[1].state, [[1, -1], [-1, -1]]);
    assert_eq!(examples[2].state, [[1, 1], [-1, -1]]);
    assert_eq!(examples[2].value, v(1_000_000));
    assert_eq!(examples[1].value, v(-1_000_000));
    assert_eq!(examples[0].value, v(1_000_000));
    for example in examples.iter() {
        assert_eq!(example.pi.as_slice(), &[v(0), v(0)]);
    }
    assert_eq!(tree.nodes().len(), 7);
    assert_eq!(tree.nodes()[NodeRef(6)].state(), &Walk { path: vec![1, 1, 1] });
    assert_eq!(*tree.nodes()[NodeRef(6)].reward(), Some(v(-1_000_000)));
}

#[test]
fn episode_with_draws_of_zero_takes_the_first_actions() {
    let mut tree = Tree::<2, Walk>::new();
    let draws = vec![v(0); 3];
    let examples = tree.execute_episode_with(1, Temperature::from_inverse(2), &draws).unwrap();
    assert_eq!(examples.len(), 3);
    assert_eq!(examples[2].state, [[0, 0], [-1, -1]]);
    assert_eq!(examples[2].value, v(-1_000_000));
    assert_eq!(examples[1].value, v(1_000_000));
    assert_eq!(examples[0].value, v(-1_000_000));
    assert_eq!(*tree.nodes()[NodeRef(5)].reward(), Some(v(1_000_000)));
}

#[test]
fn episode_stops_at_the_move_limit() {
    let mut tree = Tree::<2, Walk>::new();
    let draws = vec![v(500_000); 2];
    let result = tree.execute_episode_with(1, Temperature::from_inverse(1), &draws);
    assert_eq!(result.err(), Some(EpisodeError::MoveLimit));
    assert_eq!(tree.nodes().len(), 5);
    let mut other = Tree::<2, Walk>::new();
    assert_eq!(
        other.execute_episode_with(1, Temperature::from_inverse(1), &Vec::new()).err(),
        Some(EpisodeError::MoveLimit)
    );
    assert_eq!(other.nodes().len(), 1);
}

#[test]
fn random_episode_ends_after_three_moves() {
    for _ in 0..20 {
        let mut tree = Tree::<2, Walk>::new();
        let examples = tree.execute_episode(3, Temperature::from_inverse(1), 8).unwrap();
        assert_eq!(examples.len(), 3);
        assert_eq!(tree.nodes().len(), 7);
        let last = examples[2].value.micros();
        assert!(last == 1_000_000 || last == -1_000_000);
        assert_eq!(examples[1].value.micros(), -last);
        assert_eq!(examples[0].value.micros(), last);
    }
}

#[test]
fn episode_on_hex_finds_no_action() {
    let mut tree = Tree::<3, Hex<3>>::new();
    let draws = vec![v(500_000); 5];
    let result = tree.execute_episode_with(10, Temperature::from_inverse(100), &draws);
    assert_eq!(result.err(), Some(EpisodeError::NoAction));
    assert_eq!(tree.nodes().len(), 1);
    assert_eq!(
        tree.execute_episode(2, Temperature::from_inverse(1), 4).err(),
        Some(EpisodeError::NoAction)
    );
}
