//! The search tree: an arena of nodes addressed by handles, lazy one-shot
//! expansion, PUCT selection, simulation with backup, temperature sampling and
//! self-play episodes.

use crate::env::{picture, Action, ActionMap, State};
use crate::mcts::model::{
    are_draws, arena_wf, backed_up, child_linked, child_nodes, child_refs, children_inv,
    count_powers, cumulative, descends, episode, expanded_node, first_max, fresh_node,
    is_example_of, is_one, is_outcome_of, is_within_a_millionth, largest_count, mean_quality_spec,
    micros_of, node_consistent, opened, outcome_value, probabilities, probability_spec, puct_spec,
    quality_spec, quality_sum, sampled, sampled_from, sampling, scores, selection, simulated,
    simulated_once, sum_counts, total, uniform_stats, weights, EpisodeView, ExpansionView, NodeView,
};
use crate::mcts::proofs::{
    lemma_count_le_sum, lemma_first_max, lemma_largest_count, lemma_opened_wf, lemma_probabilities,
    lemma_probabilities_are_close, lemma_probability, lemma_sampled_from, lemma_selection,
    lemma_simulated, lemma_simulated_once, lemma_total, lemma_weights,
};
use crate::share::{rounded_quotient, share_of, share_pow, share_root, FINE};
use crate::value::{gcd, gcd_spec, lemma_gcd, ratio_spec, SCALE, Value};
use std::ops::{Index, IndexMut};
use vstd::prelude::*;

pub mod model;
pub mod proofs;

verus! {

/// The explore factor that the tree selects with: 3.
pub const EXPLORE_FACTOR: i64 = 3_000_000;

/// A handle to a node of the arena: its position there.
#[derive(Debug, Clone, Copy, PartialEq, Eq, Structural)]
pub struct NodeRef(pub usize);

impl NodeRef {
    pub fn index(&self) -> (i: usize)
        ensures
            i == self.0,
    {
        self.0
    }
}

/// What the search has learned of one action of one state.
#[derive(Debug, Clone, Copy, PartialEq, Eq, Structural)]
pub struct Stats {
    /// N(s, a): the number of times the action has been taken from the state.
    pub count: usize,
    /// W(s, a): the sum of the values backed up through the action.
    pub total_value: Value,
    /// P(s, a): the prior probability of selecting the action.
    pub prior: Value,
}

impl Stats {
    /// Q(s, a): the mean value obtained from taking the action.
    pub fn quality(&self) -> (quality: Value)
        requires
            self.count > 0,
        ensures
            quality@ == quality_spec(*self),
    {
        self.total_value.div_count(self.count)
    }

    /// PUCT(s, a) for a state that has been visited `visit_count` times.
    pub fn puct(&self, visit_count: usize, explore_factor: Value) -> (score: Value)
        requires
            self.count < usize::MAX,
        ensures
            score@ == puct_spec(*self, visit_count, explore_factor@),
    {
        let quality = if self.count > 0 {
            self.quality()
        } else {
            Value::zero()
        };
        let bonus = explore_factor.mul(self.prior).mul(Value::sqrt_count(visit_count)).div_count(
            1 + self.count,
        );
        quality.add(bonus)
    }
}

/// One position of the tree.
pub struct Node<const D: usize, S: State<D>> {
    state: S,
    /// N(s): the number of times this state has been visited.
    visit_count: usize,
    reward: Option<Value>,
    expansion: Option<Expansion>,
}

/// The children of an expanded node and the statistics of its actions: made
/// together, one child and one entry for each action.
struct Expansion {
    children: ActionMap<NodeRef>,
    stats: ActionMap<Stats>,
}

impl<const D: usize, S: State<D>> View for Node<D, S> {
    type V = NodeView<S::V>;

    closed spec fn view(&self) -> NodeView<S::V> {
        NodeView {
            state: self.state@,
            visit_count: self.visit_count,
            reward: self.reward,
            expansion: match self.expansion {
                Some(expansion) => Some(
                    ExpansionView { children: expansion.children@, stats: expansion.stats@ },
                ),
                None => None,
            },
        }
    }
}

impl<const D: usize, S: State<D>> Node<D, S> {
    pub fn new(state: S) -> (node: Self)
        requires
            S::inv(state@),
        ensures
            node@ == fresh_node::<D, S>(state@),
    {
        let reward = state.reward();
        Node { state, visit_count: 0, reward, expansion: None }
    }

    /// The state at this position.
    pub fn state(&self) -> (state: &S)
        ensures
            state@ == self@.state,
    {
        &self.state
    }

    /// The number of times this state has been visited.
    pub fn visit_count(&self) -> (count: usize)
        ensures
            count == self@.visit_count,
    {
        self.visit_count
    }

    /// The reward for this state, `None` if it is not terminal.
    pub fn reward(&self) -> (reward: &Option<Value>)
        ensures
            *reward == self@.reward,
    {
        &self.reward
    }

    pub fn has_actions(&self) -> (open: bool)
        ensures
            open == (self@.expansion is Some),
    {
        self.expansion.is_some()
    }

    /// Expands the node, unless it is expanded already: its children get the
    /// handles from `first_child` on, its actions fresh statistics.
    pub fn init_actions(&mut self, first_child: NodeRef)
        requires
            S::inv(old(self)@.state),
            first_child.0 + S::spec_action_count(old(self)@.state) <= usize::MAX,
        ensures
            final(self)@ == expanded_node::<D, S>(old(self)@, first_child),
    {
        if self.expansion.is_some() {
            return ;
        }
        let count = self.state.action_count();
        let mut children: Vec<NodeRef> = Vec::new();
        let mut stats: Vec<Stats> = Vec::new();
        if count > 0 {
            let prior = Value::ratio(1, count);
            let mut j: usize = 0;
            while j < count
                invariant
                    j <= count,
                    first_child.0 + count <= usize::MAX,
                    prior@ == ratio_spec(1, count as nat),
                    children@ == child_refs(first_child, j as nat),
                    stats@ =~= Seq::new(
                        j as nat,
                        |k: int| Stats { count: 0, total_value: Value { micros: 0 }, prior },
                    ),
                decreases count - j,
            {
                children.push(NodeRef(first_child.0 + j));
                stats.push(Stats { count: 0, total_value: Value::zero(), prior });
                assert(children@ == child_refs(first_child, (j + 1) as nat));
                j += 1;
            }
            assert(stats@ == uniform_stats(count as nat));
        } else {
            assert(children@ == child_refs(first_child, 0));
            assert(stats@ == uniform_stats(0));
        }
        self.expansion = Some(
            Expansion { children: ActionMap::new(children), stats: ActionMap::new(stats) },
        );
    }

    /// The children of an expanded node, one for each action.
    pub fn actions(&self) -> (children: &ActionMap<NodeRef>)
        requires
            self@.expansion is Some,
        ensures
            children@ == self@.expansion->Some_0.children,
    {
        match &self.expansion {
            Some(expansion) => &expansion.children,
            None => vstd::pervasive::unreached(),
        }
    }

    /// The statistics of an expanded node, one entry for each action.
    pub fn action_stats(&self) -> (stats: &ActionMap<Stats>)
        requires
            self@.expansion is Some,
        ensures
            stats@ == self@.expansion->Some_0.stats,
    {
        match &self.expansion {
            Some(expansion) => &expansion.stats,
            None => vstd::pervasive::unreached(),
        }
    }
}

impl ActionMap<Stats> {
    /// The first of the actions with the largest PUCT score, for a state that
    /// has been visited `visit_count` times.
    pub fn select(&self, visit_count: usize, explore_factor: Value) -> (best: Action)
        requires
            self@.len() > 0,
            forall|a: int| 0 <= a < self@.len() ==> self@[a].count < usize::MAX,
        ensures
            best.0 == first_max(scores(self@, visit_count, explore_factor@)),
            best.0 < self@.len(),
    {
        let ghost all = scores(self@, visit_count, explore_factor@);
        let mut best: usize = 0;
        let mut best_score = self[Action(0)].puct(visit_count, explore_factor);
        let mut a: usize = 1;
        assert(all.take(1).len() == 1);
        while a < self.len()
            invariant
                1 <= a <= self@.len(),
                all == scores(self@, visit_count, explore_factor@),
                forall|k: int| 0 <= k < self@.len() ==> self@[k].count < usize::MAX,
                best == first_max(all.take(a as int)),
                best < a,
                best_score@ == all[best as int],
            decreases self@.len() - a,
        {
            let score = self[Action(a)].puct(visit_count, explore_factor);
            proof {
                let front = all.take(a as int + 1);
                assert(front.drop_last() == all.take(a as int));
                assert(front.last() == all[a as int]);
                assert(front[best as int] == all[best as int]);
            }
            if score.micros() > best_score.micros() {
                best = a;
                best_score = score;
            }
            a += 1;
        }
        assert(all.take(a as int) == all);
        Action(best)
    }
}

impl<const D: usize, S: State<D>> Node<D, S> {
    /// Selects the action to take, the first of those with the largest PUCT
    /// score, and the child that it leads to.
    pub fn select_action(&self, explore_factor: Value) -> (selected: (Action, NodeRef))
        requires
            self@.expansion is Some,
            self@.expansion->Some_0.stats.len() > 0,
            self@.expansion->Some_0.children.len() == self@.expansion->Some_0.stats.len(),
            forall|a: int|
                0 <= a < self@.expansion->Some_0.stats.len()
                    ==> self@.expansion->Some_0.stats[a].count < usize::MAX,
        ensures
            selected == selection(self@, explore_factor@),
            selected.0.0 == first_max(
                scores(self@.expansion->Some_0.stats, self@.visit_count, explore_factor@),
            ),
            selected.0.0 < self@.expansion->Some_0.stats.len(),
            selected.1 == self@.expansion->Some_0.children[selected.0.0 as int],
    {
        let action = self.action_stats().select(self.visit_count(), explore_factor);
        (action, self.actions()[action])
    }
}

/// The nodes of one tree. A node is addressed by its position, nodes are only
/// ever added, and a child stands behind its parent.
pub struct Nodes<const D: usize, S: State<D>>(Vec<Node<D, S>>);

impl<const D: usize, S: State<D>> View for Nodes<D, S> {
    type V = Seq<NodeView<S::V>>;

    closed spec fn view(&self) -> Seq<NodeView<S::V>> {
        Seq::new(self.0@.len(), |i: int| self.0@[i]@)
    }
}

impl<const D: usize, S: State<D>> Nodes<D, S> {
    /// Whether every node is consistent and every child linked to its parent.
    pub open spec fn wf(&self) -> bool {
        arena_wf::<D, S>(self@)
    }

    /// An arena that holds the node of the initial state, and the handle of
    /// that node.
    pub fn new() -> (made: (NodeRef, Self))
        ensures
            made.0 == NodeRef(0),
            made.1@ == seq![fresh_node::<D, S>(S::spec_init())],
            made.1.wf(),
    {
        let mut nodes = Nodes(Vec::new());
        let root_ref = nodes.add_node(S::init());
        assert(nodes@ == seq![fresh_node::<D, S>(S::spec_init())]);
        (root_ref, nodes)
    }

    /// The number of nodes.
    pub fn len(&self) -> (len: usize)
        ensures
            len == self@.len(),
    {
        self.0.len()
    }

    fn add_node(&mut self, state: S) -> (node_ref: NodeRef)
        requires
            S::inv(state@),
        ensures
            node_ref.0 == old(self)@.len(),
            final(self)@ == old(self)@.push(fresh_node::<D, S>(state@)),
    {
        let index = self.0.len();
        self.0.push(Node::new(state));
        assert(self@ == old(self)@.push(fresh_node::<D, S>(state@)));
        NodeRef(index)
    }

    fn is_open(&self, node_ref: NodeRef) -> (open: bool)
        requires
            node_ref.0 < self@.len(),
        ensures
            open == (self@[node_ref.0 as int].expansion is Some),
    {
        self[node_ref].has_actions()
    }

    /// Expands a node, unless it is expanded already.
    fn open_if_not(&mut self, node_ref: NodeRef)
        requires
            old(self).wf(),
            node_ref.0 < old(self)@.len(),
        ensures
            final(self)@ == opened::<D, S>(old(self)@, node_ref.0 as int),
            final(self).wf(),
    {
        if self.is_open(node_ref) {
            return ;
        }
        assert(node_consistent::<D, S>(self@[node_ref.0 as int]));
        let first = NodeRef(self.0.len());
        self.add_children(node_ref);
        assert(self@.len() == self.0.len());
        self.init_actions(node_ref, first);
        proof {
            lemma_opened_wf::<D, S>(old(self)@, node_ref.0 as int);
            assert(self@ == opened::<D, S>(old(self)@, node_ref.0 as int));
        }
    }

    /// Gives an unexpanded node its expansion: the children are the nodes from
    /// `first_child` on.
    fn init_actions(&mut self, node_ref: NodeRef, first_child: NodeRef)
        requires
            node_ref.0 < old(self)@.len(),
            S::inv(old(self)@[node_ref.0 as int].state),
            first_child.0 + S::spec_action_count(old(self)@[node_ref.0 as int].state)
                <= usize::MAX,
        ensures
            final(self)@ == old(self)@.update(
                node_ref.0 as int,
                expanded_node::<D, S>(old(self)@[node_ref.0 as int], first_child),
            ),
    {
        self.0[node_ref.index()].init_actions(first_child);
        assert(self@ == old(self)@.update(
            node_ref.0 as int,
            expanded_node::<D, S>(old(self)@[node_ref.0 as int], first_child),
        ));
    }

    /// Adds a node for each action of the state of `node_ref`, in the order of
    /// the actions.
    fn add_children(&mut self, node_ref: NodeRef)
        requires
            node_ref.0 < old(self)@.len(),
            S::inv(old(self)@[node_ref.0 as int].state),
        ensures
            final(self)@ == old(self)@ + child_nodes::<D, S>(old(self)@[node_ref.0 as int].state),
            children_inv::<D, S>(old(self)@[node_ref.0 as int].state),
    {
        let state = &self.0[node_ref.index()].state;
        let actions = state.action_iter();
        let mut child_states: Vec<S> = Vec::new();
        let mut j: usize = 0;
        while j < actions.len()
            invariant
                j <= actions@.len(),
                node_ref.0 < old(self)@.len(),
                state@ == old(self)@[node_ref.0 as int].state,
                actions@ == crate::env::action_seq(S::spec_action_count(state@)),
                S::inv(state@),
                child_states@.len() == j,
                forall|k: int|
                    0 <= k < j ==> (#[trigger] child_states@[k])@ == S::spec_take(
                        state@,
                        Action(k as usize),
                    ) && S::inv(child_states@[k]@),
            decreases actions@.len() - j,
        {
            child_states.push(state.take(actions[j]));
            j += 1;
        }
        let ghost parent = state@;
        let ghost count = child_states@.len();
        proof {
            assert forall|k: int| 0 <= k < count implies S::inv(
                #[trigger] S::spec_take(parent, Action(k as usize)),
            ) by {
                assert(S::inv(child_states@[k]@));
            }
        }
        let mut added: usize = 0;
        while child_states.len() > 0
            invariant
                count == S::spec_action_count(parent),
                count <= usize::MAX,
                node_ref.0 < old(self)@.len(),
                parent == old(self)@[node_ref.0 as int].state,
                added + child_states@.len() == count,
                forall|k: int|
                    0 <= k < child_states@.len() ==> (#[trigger] child_states@[k])@
                        == S::spec_take(parent, Action((added + k) as usize)) && S::inv(
                        child_states@[k]@,
                    ),
                self@ == old(self)@ + child_nodes::<D, S>(parent).take(added as int),
            decreases child_states@.len(),
        {
            let child_state = child_states.remove(0);
            let ghost before = self@;
            let _ = self.add_node(child_state);
            assert(self@ == old(self)@ + child_nodes::<D, S>(parent).take(added + 1)) by {
                let target = old(self)@ + child_nodes::<D, S>(parent).take(added + 1);
                assert(self@.len() == target.len());
                assert forall|k: int| 0 <= k < target.len() implies self@[k] == target[k] by {
                    if k < before.len() {
                        assert(self@[k] == before[k]);
                    }
                }
            }
            added += 1;
        }
        assert(child_nodes::<D, S>(parent).take(added as int) == child_nodes::<D, S>(parent));
    }
}

impl<const D: usize, S: State<D>> Index<NodeRef> for Nodes<D, S> {
    type Output = Node<D, S>;

    /// The node behind a handle.
    fn index(&self, index: NodeRef) -> (node: &Node<D, S>)
        ensures
            node@ == self@[index.0 as int],
    {
        &self.0[index.index()]
    }
}

impl<const D: usize, S: State<D>> vstd::std_specs::core::IndexSpecImpl<NodeRef> for Nodes<D, S> {
    open spec fn index_req(&self, index: &NodeRef) -> bool {
        index.0 < self@.len()
    }
}

impl<const D: usize, S: State<D>> IndexMut<NodeRef> for Nodes<D, S> {
    fn index_mut(&mut self, index: NodeRef) -> (node: &mut Node<D, S>)
        requires
            index.0 < old(self)@.len(),
        ensures
            node@ == old(self)@[index.0 as int],
            final(self)@ == old(self)@.update(index.0 as int, final(node)@),
    {
        &mut self.0[index.index()]
    }
}

impl<const D: usize, S: State<D>> Nodes<D, S> {
    /// Selects an action of a node and the child that it leads to, expanding
    /// the node first if it has not been expanded.
    pub fn select_action(&mut self, node_ref: NodeRef) -> (selected: (Action, NodeRef))
        requires
            old(self).wf(),
            node_ref.0 < old(self)@.len(),
            S::spec_action_count(old(self)@[node_ref.0 as int].state) > 0,
            old(self)@[node_ref.0 as int].visit_count < usize::MAX,
        ensures
            final(self)@ == opened::<D, S>(old(self)@, node_ref.0 as int),
            final(self).wf(),
            selected == selection(final(self)@[node_ref.0 as int], EXPLORE_FACTOR as int),
            selected.0.0 == first_max(
                scores(
                    final(self)@[node_ref.0 as int].expansion->Some_0.stats,
                    final(self)@[node_ref.0 as int].visit_count,
                    EXPLORE_FACTOR as int,
                ),
            ),
            selected.1
                == final(self)@[node_ref.0 as int].expansion->Some_0.children[selected.0.0 as int],
            selected.0.0 < S::spec_action_count(old(self)@[node_ref.0 as int].state),
            node_ref.0 < selected.1.0 < final(self)@.len(),
    {
        self.open_if_not(node_ref);
        proof {
            let node = self@[node_ref.0 as int];
            assert(node_consistent::<D, S>(old(self)@[node_ref.0 as int]));
            assert(node_consistent::<D, S>(node));
            let stats = node.expansion->Some_0.stats;
            assert forall|a: int| 0 <= a < stats.len() implies stats[a].count
                < usize::MAX by {
                lemma_count_le_sum(stats, a);
            }
            lemma_first_max(scores(stats, node.visit_count, EXPLORE_FACTOR as int));
            assert(child_linked::<D, S>(
                self@,
                node_ref.0 as int,
                first_max(scores(stats, node.visit_count, EXPLORE_FACTOR as int)),
            ));
        }
        self[node_ref].select_action(Value::from_micros(EXPLORE_FACTOR))
    }
}

/// Whether step `t` of a way down the tree is the selected one: `back[t]`
/// holds the node `path[t]`, below which the simulation goes on, and the
/// action selected there, which leads to `path[t + 1]`.
spec fn step_selected<V>(
    nodes: Seq<NodeView<V>>,
    back: Seq<(NodeRef, Action)>,
    path: Seq<NodeRef>,
    t: int,
) -> bool {
    &&& path[t].0 < path[t + 1].0 < nodes.len()
    &&& back[t].0 == path[t]
    &&& descends(nodes[path[t].0 as int])
    &&& selection(nodes[path[t].0 as int], EXPLORE_FACTOR as int) == (back[t].1, path[t + 1])
}

/// Whether every step of a way down the tree is the selected one.
spec fn way_selected<V>(
    nodes: Seq<NodeView<V>>,
    back: Seq<(NodeRef, Action)>,
    path: Seq<NodeRef>,
) -> bool {
    &&& path.len() > back.len()
    &&& path[back.len() as int].0 < nodes.len()
    &&& forall|t: int| 0 <= t < back.len() ==> #[trigger] step_selected(nodes, back, path, t)
}

/// A search tree: an arena of nodes and the handle of its root.
pub struct Tree<const D: usize, S: State<D>> {
    root_ref: NodeRef,
    nodes: Nodes<D, S>,
}

impl<const D: usize, S: State<D>> View for Tree<D, S> {
    type V = Seq<NodeView<S::V>>;

    closed spec fn view(&self) -> Seq<NodeView<S::V>> {
        self.nodes@
    }
}

impl<const D: usize, S: State<D>> Tree<D, S> {
    /// The handle of the root.
    pub closed spec fn root(&self) -> NodeRef {
        self.root_ref
    }

    /// Whether the arena is well-formed and holds the root.
    pub open spec fn wf(&self) -> bool {
        arena_wf::<D, S>(self@) && self.root().0 < self@.len()
    }

    /// A tree that holds the node of the initial state, its root.
    pub fn new() -> (tree: Self)
        ensures
            tree.wf(),
            tree.root() == NodeRef(0),
            tree@ == seq![fresh_node::<D, S>(S::spec_init())],
    {
        let (root_ref, nodes) = Nodes::<D, S>::new();
        Self { root_ref, nodes }
    }

    /// The handle of the root.
    pub fn root_ref(&self) -> (root_ref: NodeRef)
        ensures
            root_ref == self.root(),
    {
        self.root_ref
    }

    /// The nodes of the tree.
    pub fn nodes(&self) -> (nodes: &Nodes<D, S>)
        ensures
            nodes@ == self@,
    {
        &self.nodes
    }

    /// The largest number of visits of any node, 0 for a tree without visits.
    /// Simulations can be run as long as this number and their count together
    /// stay within `usize::MAX`.
    pub fn most_visits(&self) -> (most: usize)
        ensures
            forall|k: int| 0 <= k < self@.len() ==> (#[trigger] self@[k]).visit_count <= most,
            most == 0 || exists|k: int|
                0 <= k < self@.len() && (#[trigger] self@[k]).visit_count == most,
    {
        let mut most: usize = 0;
        let mut at: usize = 0;
        while at < self.nodes.len()
            invariant
                at <= self@.len(),
                forall|k: int| 0 <= k < at ==> (#[trigger] self@[k]).visit_count <= most,
                most == 0 || exists|k: int|
                    0 <= k < self@.len() && (#[trigger] self@[k]).visit_count == most,
            decreases self@.len() - at,
        {
            let visits = self.nodes[NodeRef(at)].visit_count();
            if visits > most {
                most = visits;
            }
            at += 1;
        }
        most
    }

    /// Runs `count` simulations from a node.
    ///
    /// Each simulation goes down from the node, by the selected actions,
    /// while the node it stands on has been visited and is not terminal;
    /// takes the reward of the node where it stops, or 0 if that is not
    /// terminal; and backs that value up the way it came: each node on the
    /// way is visited once more and counts the value, seen from its own
    /// state, for the action taken there.
    pub fn simulate(&mut self, node_ref: NodeRef, count: usize)
        requires
            old(self).wf(),
            node_ref.0 < old(self)@.len(),
            forall|k: int|
                0 <= k < old(self)@.len() ==> (#[trigger] old(self)@[k]).visit_count + count
                    <= usize::MAX,
        ensures
            final(self)@ == simulated::<D, S>(old(self)@, node_ref.0 as int, count as nat),
            final(self).wf(),
            final(self).root() == old(self).root(),
            final(self)@.len() == old(self)@.len(),
    {
        let mut back: Vec<(NodeRef, Action)> = Vec::with_capacity(128);
        let mut done: usize = 0;
        while done < count
            invariant
                done <= count,
                back@.len() == 0,
                node_ref.0 < old(self)@.len(),
                arena_wf::<D, S>(old(self)@),
                forall|k: int|
                    0 <= k < old(self)@.len() ==> (#[trigger] old(self)@[k]).visit_count + count
                        <= usize::MAX,
                self@ == simulated::<D, S>(old(self)@, node_ref.0 as int, done as nat),
                self.root() == old(self).root(),
            decreases count - done,
        {
            let ghost start = self@;
            proof {
                lemma_simulated::<D, S>(old(self)@, node_ref.0 as int, done as nat);
                assert forall|k: int| 0 <= k < start.len() implies (#[trigger] start[k]).visit_count
                    < usize::MAX by {
                    assert(start[k] == simulated::<D, S>(
                        old(self)@,
                        node_ref.0 as int,
                        done as nat,
                    )[k]);
                }
            }
            let mut curr_ref = node_ref;
            let ghost mut path: Seq<NodeRef> = seq![node_ref];
            while self.nodes[curr_ref].visit_count() > 0 && self.nodes[curr_ref].reward().is_none()
                invariant
                    self@ == start,
                    self.root() == old(self).root(),
                    arena_wf::<D, S>(start),
                    forall|k: int|
                        0 <= k < start.len() ==> (#[trigger] start[k]).visit_count < usize::MAX,
                    path[0] == node_ref,
                    path.last() == curr_ref,
                    path.len() == back@.len() + 1,
                    way_selected(start, back@, path),
                decreases start.len() - curr_ref.0,
            {
                proof {
                    assert(node_consistent::<D, S>(start[curr_ref.0 as int]));
                }
                let ghost back_before = back@;
                let ghost path_before = path;
                let (action, new_curr_ref) = self.nodes.select_action(curr_ref);
                back.push((curr_ref, action));
                proof {
                    path = path.push(new_curr_ref);
                    assert forall|t: int| 0 <= t < back@.len() implies #[trigger] step_selected(
                        start,
                        back@,
                        path,
                        t,
                    ) by {
                        if t < back_before.len() {
                            assert(step_selected(start, back_before, path_before, t));
                        }
                    }
                }
                curr_ref = new_curr_ref;
            }
            let mut value = match self.nodes[curr_ref].reward() {
                Some(reward) => *reward,
                None => Value::zero(),
            };
            while back.len() > 0
                invariant
                    self.root() == old(self).root(),
                    arena_wf::<D, S>(start),
                    forall|k: int|
                        0 <= k < start.len() ==> (#[trigger] start[k]).visit_count < usize::MAX,
                    path[0] == node_ref,
                    way_selected(start, back@, path),
                    (self@, value) == simulated_once::<D, S>(
                        start,
                        path[back@.len() as int].0 as int,
                    ),
                decreases back@.len(),
            {
                let ghost below = self@;
                let ghost below_value = value;
                let ghost back_before = back@;
                let ghost t = back@.len() - 1;
                let (prev_ref, action) = back.pop().unwrap();
                let ghost at = prev_ref.0 as int;
                proof {
                    assert(step_selected(start, back_before, path, t));
                    lemma_simulated_once::<D, S>(start, path[t + 1].0 as int);
                    assert(below[at] == start[at]);
                    assert(node_consistent::<D, S>(start[at]));
                    lemma_selection::<D, S>(start, at);
                    lemma_count_le_sum(start[at].expansion->Some_0.stats, action.0 as int);
                    assert forall|u: int| 0 <= u < back@.len() implies #[trigger] step_selected(
                        start,
                        back@,
                        path,
                        u,
                    ) by {
                        assert(step_selected(start, back_before, path, u));
                    }
                }
                let prev = self.nodes.index_mut(prev_ref);
                prev.visit_count += 1;
                value = prev.state.value(action, value);
                match &mut prev.expansion {
                    Some(expansion) => {
                        let prev_action_stats = expansion.stats.index_mut(action);
                        prev_action_stats.count += 1;
                        prev_action_stats.total_value = prev_action_stats.total_value.add(value);
                    },
                    None => {},
                }
                proof {
                    assert(self@ == below.update(at, backed_up(start[at], action, value)));
                    assert(simulated_once::<D, S>(start, path[t + 1].0 as int) == (
                        below,
                        below_value,
                    ));
                    assert(value == S::spec_value(start[at].state, action, below_value));
                    assert(simulated_once::<D, S>(start, at) == (self@, value));
                }
            }
            done += 1;
        }
        proof {
            lemma_simulated::<D, S>(old(self)@, node_ref.0 as int, count as nat);
        }
    }
}

/// How sharply sampling prefers the actions that were counted most: the
/// temperature `root / inverse`. An action weighs as its count raised to the
/// power `1 / temperature`, that is the root of order `root` of it, raised to
/// the power `inverse`; a `root` of 0 counts as 1.
#[derive(Debug, Clone, Copy, PartialEq, Eq, Structural)]
pub struct Temperature {
    pub inverse: u32,
    pub root: u32,
}

impl Temperature {
    /// The temperature `1 / inverse`.
    pub fn from_inverse(inverse: u32) -> (temperature: Temperature)
        ensures
            temperature == (Temperature { inverse, root: 1 }),
    {
        Temperature { inverse, root: 1 }
    }

    /// The temperature `numerator / denominator`, in lowest terms.
    pub fn from_ratio(numerator: u32, denominator: u32) -> (temperature: Temperature)
        requires
            numerator > 0,
        ensures
            temperature.root == numerator as nat / gcd_spec(numerator as nat, denominator as nat),
            temperature.inverse == denominator as nat / gcd_spec(
                numerator as nat,
                denominator as nat,
            ),
            temperature.root >= 1,
            temperature.root * denominator == temperature.inverse * numerator,
    {
        let common = gcd(numerator, denominator);
        proof {
            lemma_gcd(numerator as nat, denominator as nat);
            vstd::arithmetic::div_mod::lemma_fundamental_div_mod(
                numerator as int,
                common as int,
            );
            vstd::arithmetic::div_mod::lemma_fundamental_div_mod(
                denominator as int,
                common as int,
            );
            let n = numerator as int / common as int;
            let d = denominator as int / common as int;
            assert(n * denominator == d * numerator && n >= 1) by (nonlinear_arith)
                requires
                    numerator == common * n,
                    denominator == common * d,
                    common > 0,
                    numerator > 0,
            ;
        }
        Temperature { inverse: denominator / common, root: numerator / common }
    }
}

impl ActionMap<Stats> {
    /// The largest count of any action, 0 where there is no action.
    pub fn largest_count(&self) -> (largest: usize)
        ensures
            largest == largest_count(self@, self@.len() as int),
    {
        let mut largest: usize = 0;
        let mut a: usize = 0;
        while a < self.len()
            invariant
                a <= self@.len(),
                largest == largest_count(self@, a as int),
            decreases self@.len() - a,
        {
            if self[Action(a)].count > largest {
                largest = self[Action(a)].count;
            }
            a += 1;
        }
        largest
    }

    /// The probability of each action, in the order of the actions: its
    /// weight `N(s, a) ^ (1 / temperature)` divided by the sum of the weights
    /// of all actions, rounded to the nearest millionth. The visits of the
    /// state do not enter.
    ///
    /// Each probability lies from 0 to 1; an action counted at least as often
    /// as another is at least as probable; where an action has been counted,
    /// the probabilities add up to 1, give or take half a millionth for each
    /// action; and at the temperature 1 a probability is the count divided by
    /// the sum of the counts.
    pub fn probability_iter(&self, visit_count: usize, temperature: Temperature) -> (result: Vec<
        Value,
    >)
        ensures
            result@ == probabilities(self@, temperature),
            forall|a: int| 0 <= a < self@.len() ==> 0 <= (#[trigger] result@[a])@ <= SCALE,
            forall|a: int, b: int|
                0 <= a < self@.len() && 0 <= b < self@.len() && self@[a].count >= self@[b].count
                    ==> (#[trigger] result@[a])@ >= (#[trigger] result@[b])@,
            largest_count(self@, self@.len() as int) > 0 ==> 2 * SCALE - self@.len() <= 2 * total(
                micros_of(result@),
                self@.len() as int,
            ) <= 2 * SCALE + self@.len(),
            is_one(temperature) ==> forall|a: int|
                0 <= a < self@.len() ==> (#[trigger] result@[a])@ == probability_spec(
                    self@[a].count as int,
                    sum_counts(self@) as int,
                ),
            temperature.root <= 1 && largest_count(self@, self@.len() as int) > 0 && (is_one(
                temperature,
            ) || 4 * temperature.inverse * self@.len() * SCALE < FINE) ==> forall|a: int|
                0 <= a < self@.len() ==> is_within_a_millionth(
                    (#[trigger] result@[a])@,
                    count_powers(self@, temperature.inverse as nat)[a],
                    total(
                        count_powers(self@, temperature.inverse as nat),
                        self@.len() as int,
                    ),
                ),
    {
        let largest = self.largest_count();
        let one = temperature.inverse == 1 && temperature.root <= 1;
        let ghost all = weights(self@, temperature);
        proof {
            lemma_weights(self@, temperature);
            lemma_probabilities(self@, temperature);
            lemma_largest_count(self@, self@.len() as int);
            if temperature.root <= 1 && largest > 0 && (is_one(temperature) || 4
                * temperature.inverse * self@.len() * SCALE < FINE) {
                assert forall|a: int| 0 <= a < self@.len() implies is_within_a_millionth(
                    (#[trigger] probabilities(self@, temperature)[a])@,
                    count_powers(self@, temperature.inverse as nat)[a],
                    total(count_powers(self@, temperature.inverse as nat), self@.len() as int),
                ) by {
                    lemma_probabilities_are_close(self@, temperature, a);
                }
            }
        }
        let mut weighed: Vec<u128> = Vec::new();
        let mut sum: u128 = 0;
        let mut a: usize = 0;
        while a < self.len()
            invariant
                a <= self@.len(),
                largest == largest_count(self@, self@.len() as int),
                one == is_one(temperature),
                all == weights(self@, temperature),
                forall|b: int| 0 <= b < self@.len() ==> (#[trigger] self@[b]).count <= largest,
                forall|b: int|
                    0 <= b < self@.len() ==> 0 <= #[trigger] all[b] <= 0xffff_ffff_ffff_ffff,
                weighed@.len() == a,
                forall|b: int| 0 <= b < a ==> #[trigger] weighed@[b] == all[b],
                sum == total(all, a as int),
                sum <= a * 0xffff_ffff_ffff_ffff,
            decreases self@.len() - a,
        {
            let stats = &self[Action(a)];
            let weight: u128 = if one {
                stats.count as u128
            } else {
                let share = if largest == 0 {
                    0
                } else {
                    share_of(stats.count, largest)
                };
                let rooted = if temperature.root <= 1 {
                    share
                } else {
                    share_root(share, temperature.root)
                };
                share_pow(rooted, temperature.inverse)
            };
            assert(weight == all[a as int]);
            weighed.push(weight);
            assert((a + 1) * 0xffff_ffff_ffff_ffff <= 0xffff_ffff_ffff_ffff
                * 0xffff_ffff_ffff_ffff) by (nonlinear_arith)
                requires
                    0 <= a < 0xffff_ffff_ffff_ffff,
            ;
            assert((a + 1) * 0xffff_ffff_ffff_ffff == a * 0xffff_ffff_ffff_ffff
                + 0xffff_ffff_ffff_ffff) by (nonlinear_arith);
            sum = sum + weight;
            a += 1;
        }
        let mut result: Vec<Value> = Vec::new();
        let mut a: usize = 0;
        while a < weighed.len()
            invariant
                a <= self@.len(),
                weighed@.len() == self@.len(),
                all == weights(self@, temperature),
                forall|b: int|
                    0 <= b < self@.len() ==> 0 <= #[trigger] all[b] <= 0xffff_ffff_ffff_ffff,
                forall|b: int| 0 <= b < self@.len() ==> #[trigger] weighed@[b] == all[b],
                sum == total(all, self@.len() as int),
                forall|b: int|
                    0 <= b < self@.len() ==> 0 <= (#[trigger] probabilities(
                        self@,
                        temperature,
                    )[b])@ <= SCALE,
                result@ == probabilities(self@, temperature).take(a as int),
            decreases self@.len() - a,
        {
            let weight = weighed[a];
            assert(weight == all[a as int]);
            assert(weight * (SCALE as u128) <= 0xffff_ffff_ffff_ffff * 1_000_000)
                by (nonlinear_arith)
                requires
                    0 <= weight <= 0xffff_ffff_ffff_ffff,
                    SCALE == 1_000_000,
            ;
            let probability = if sum == 0 {
                0u128
            } else {
                rounded_quotient(weight * (SCALE as u128), sum)
            };
            proof {
                lemma_total(all, a as int, self@.len() as int);
                lemma_probability(all[a as int], all[a as int], sum as int);
                assert(probabilities(self@, temperature)[a as int]@ == probability_spec(
                    all[a as int],
                    sum as int,
                ));
            }
            result.push(Value::from_micros(probability as i64));
            assert(result@ == probabilities(self@, temperature).take(a + 1));
            a += 1;
        }
        assert(probabilities(self@, temperature).take(a as int) == probabilities(
            self@,
            temperature,
        ));
        result
    }

    /// The mean quality of the actions, each of which has been taken.
    pub fn quality(&self) -> (quality: Value)
        requires
            self@.len() > 0,
            forall|a: int| 0 <= a < self@.len() ==> self@[a].count > 0,
        ensures
            quality@ == mean_quality_spec(self@),
    {
        let mut sum = Value::zero();
        let mut a: usize = 0;
        while a < self.len()
            invariant
                a <= self@.len(),
                forall|k: int| 0 <= k < self@.len() ==> self@[k].count > 0,
                sum@ == quality_sum(self@, a as int),
            decreases self@.len() - a,
        {
            sum = sum.add(self[Action(a)].quality());
            a += 1;
        }
        sum.div_count(self.len())
    }
}

impl ActionMap<Value> {
    /// The action that a draw picks among actions of these probabilities: the
    /// first up to which the probabilities add up to at least the draw, and
    /// the last action if there is none.
    pub fn sample(&self, draw: Value) -> (picked: Action)
        requires
            self@.len() > 0,
        ensures
            picked.0 == sampled(self@, draw@),
            picked.0 < self@.len(),
    {
        let mut p = Value::zero();
        let mut a: usize = 0;
        proof {
            lemma_sampled_from(self@, draw@, 0);
        }
        let len = self.len();
        while a + 1 < len
            invariant_except_break
                p@ == cumulative(self@, a as int),
                sampled(self@, draw@) == sampled_from(self@, draw@, a as int),
            invariant
                len == self@.len(),
                a < len,
            ensures
                a == sampled(self@, draw@),
            decreases len - a,
        {
            p = p.add(self[Action(a)]);
            if p.micros() >= draw.micros() {
                break ;
            }
            a += 1;
        }
        Action(a)
    }
}

/// A random number from 0 up to, and without, `bound`.
///
/// Calls `rand::random_range` on the range `0..bound`. The contract claims
/// that the number lies in that range, as the function's documentation says of
/// every range that is not empty; it panics on an empty one.
#[verifier::external_body]
fn random_below(bound: i64) -> (number: i64)
    requires
        bound > 0,
    ensures
        0 <= number < bound,
{
    rand::random_range(0..bound)
}

/// A random number from 0 up to, and without, 1.
pub fn random_draw() -> (draw: Value)
    ensures
        0 <= draw@ < SCALE,
{
    Value::from_micros(random_below(SCALE))
}

impl<const D: usize, S: State<D>> Node<D, S> {
    /// pi_s(a): the probability that each action is taken from this state.
    pub fn action_probability(&self, temperature: Temperature) -> (pi: ActionMap<Value>)
        requires
            self@.expansion is Some,
        ensures
            pi@ == probabilities(self@.expansion->Some_0.stats, temperature),
            pi@.len() == self@.expansion->Some_0.stats.len(),
            forall|a: int| 0 <= a < pi@.len() ==> 0 <= (#[trigger] pi@[a])@ <= SCALE,
            forall|a: int, b: int|
                0 <= a < pi@.len() && 0 <= b < pi@.len() && self@.expansion->Some_0.stats[a].count
                    >= self@.expansion->Some_0.stats[b].count ==> (#[trigger] pi@[a])@ >= (
                #[trigger] pi@[b])@,
            largest_count(self@.expansion->Some_0.stats, pi@.len() as int) > 0 ==> 2 * SCALE
                - pi@.len() <= 2 * total(micros_of(pi@), pi@.len() as int) <= 2 * SCALE
                + pi@.len(),
            is_one(temperature) ==> forall|a: int|
                0 <= a < pi@.len() ==> (#[trigger] pi@[a])@ == probability_spec(
                    self@.expansion->Some_0.stats[a].count as int,
                    sum_counts(self@.expansion->Some_0.stats) as int,
                ),
            temperature.root <= 1 && largest_count(self@.expansion->Some_0.stats, pi@.len() as int)
                > 0 && (is_one(temperature) || 4 * temperature.inverse * pi@.len() * SCALE < FINE)
                ==> forall|a: int|
                0 <= a < pi@.len() ==> is_within_a_millionth(
                    (#[trigger] pi@[a])@,
                    count_powers(self@.expansion->Some_0.stats, temperature.inverse as nat)[a],
                    total(
                        count_powers(self@.expansion->Some_0.stats, temperature.inverse as nat),
                        pi@.len() as int,
                    ),
                ),
    {
        ActionMap::new(self.action_stats().probability_iter(self.visit_count(), temperature))
    }

    /// The action that the draw `draw` samples: the first up to which the
    /// probabilities of the actions add up to at least the draw, and the last
    /// action if there is none.
    pub fn sample_action_with(&self, temperature: Temperature, draw: Value) -> (selected: (
        Action,
        NodeRef,
    ))
        requires
            self@.expansion is Some,
            self@.expansion->Some_0.stats.len() > 0,
            self@.expansion->Some_0.children.len() == self@.expansion->Some_0.stats.len(),
        ensures
            selected == sampling(self@, temperature, draw),
            selected.0.0 == sampled(
                probabilities(self@.expansion->Some_0.stats, temperature),
                draw@,
            ),
            selected.0.0 < self@.expansion->Some_0.stats.len(),
            selected.1 == self@.expansion->Some_0.children[selected.0.0 as int],
    {
        let action = self.action_probability(temperature).sample(draw);
        (action, self.actions()[action])
    }

    /// Samples an action: draws a random number from 0 up to, and without, 1
    /// and takes the action that it samples.
    pub fn sample_action(&self, temperature: Temperature) -> (selected: (Action, NodeRef))
        requires
            self@.expansion is Some,
            self@.expansion->Some_0.stats.len() > 0,
            self@.expansion->Some_0.children.len() == self@.expansion->Some_0.stats.len(),
        ensures
            exists|draw: Value|
                0 <= draw@ < SCALE && selected == #[trigger] sampling(self@, temperature, draw)
                    && selected.0.0 == sampled(
                    probabilities(self@.expansion->Some_0.stats, temperature),
                    draw@,
                ),
            selected.0.0 < self@.expansion->Some_0.stats.len(),
            selected.1 == self@.expansion->Some_0.children[selected.0.0 as int],
    {
        let r = random_draw();
        self.sample_action_with(temperature, r)
    }

    /// The mean quality of the actions of this state, each of which has been
    /// taken.
    pub fn quality(&self) -> (quality: Value)
        requires
            self@.expansion is Some,
            self@.expansion->Some_0.stats.len() > 0,
            forall|a: int|
                0 <= a < self@.expansion->Some_0.stats.len()
                    ==> self@.expansion->Some_0.stats[a].count > 0,
        ensures
            quality@ == mean_quality_spec(self@.expansion->Some_0.stats),
    {
        self.action_stats().quality()
    }
}

impl<const D: usize, S: State<D>> Nodes<D, S> {
    /// Samples an action of a node with the draw `draw`, and the child that it
    /// leads to, expanding the node first if it has not been expanded.
    pub fn sample_action_with(
        &mut self,
        node_ref: NodeRef,
        temperature: Temperature,
        draw: Value,
    ) -> (selected: (Action, NodeRef))
        requires
            old(self).wf(),
            node_ref.0 < old(self)@.len(),
            S::spec_action_count(old(self)@[node_ref.0 as int].state) > 0,
        ensures
            final(self)@ == opened::<D, S>(old(self)@, node_ref.0 as int),
            final(self).wf(),
            selected == sampling(final(self)@[node_ref.0 as int], temperature, draw),
            selected.0.0 == sampled(
                probabilities(final(self)@[node_ref.0 as int].expansion->Some_0.stats, temperature),
                draw@,
            ),
            selected.1
                == final(self)@[node_ref.0 as int].expansion->Some_0.children[selected.0.0 as int],
            selected.0.0 < S::spec_action_count(old(self)@[node_ref.0 as int].state),
            node_ref.0 < selected.1.0 < final(self)@.len(),
    {
        self.open_if_not(node_ref);
        proof {
            let node = self@[node_ref.0 as int];
            assert(node_consistent::<D, S>(old(self)@[node_ref.0 as int]));
            assert(node_consistent::<D, S>(node));
            let pi = probabilities(node.expansion->Some_0.stats, temperature);
            lemma_sampled_from(pi, draw@, 0);
            assert(child_linked::<D, S>(self@, node_ref.0 as int, sampled(pi, draw@)));
        }
        self[node_ref].sample_action_with(temperature, draw)
    }

    /// Samples an action of a node and the child that it leads to, expanding
    /// the node first if it has not been expanded.
    pub fn sample_action(&mut self, node_ref: NodeRef, temperature: Temperature) -> (selected: (
        Action,
        NodeRef,
    ))
        requires
            old(self).wf(),
            node_ref.0 < old(self)@.len(),
            S::spec_action_count(old(self)@[node_ref.0 as int].state) > 0,
        ensures
            final(self)@ == opened::<D, S>(old(self)@, node_ref.0 as int),
            final(self).wf(),
            exists|draw: Value|
                0 <= draw@ < SCALE && selected == #[trigger] sampling(
                    final(self)@[node_ref.0 as int],
                    temperature,
                    draw,
                ) && selected.0.0 == sampled(
                    probabilities(
                        final(self)@[node_ref.0 as int].expansion->Some_0.stats,
                        temperature,
                    ),
                    draw@,
                ),
            selected.1
                == final(self)@[node_ref.0 as int].expansion->Some_0.children[selected.0.0 as int],
            selected.0.0 < S::spec_action_count(old(self)@[node_ref.0 as int].state),
            node_ref.0 < selected.1.0 < final(self)@.len(),
    {
        let r = random_draw();
        self.sample_action_with(node_ref, temperature, r)
    }
}

/// A training example: one move of a finished episode.
pub struct Example<const D: usize> {
    /// The picture of the state that the move was made from.
    pub state: [[i32; D]; D],
    /// The probability of each action of that state.
    pub pi: ActionMap<Value>,
    /// The outcome of the episode, seen from that state.
    pub value: Value,
}

/// Why an episode ended without reaching a terminal state.
#[derive(Debug, Clone, Copy, PartialEq, Eq, Structural)]
pub enum EpisodeError {
    /// The episode came to a state without any action.
    NoAction,
    /// The episode used up its moves.
    MoveLimit,
}

/// Whether every node moved from is an expanded node of the arena.
spec fn moves_open<V>(nodes: Seq<NodeView<V>>, moves: Seq<(NodeRef, Action)>) -> bool {
    forall|t: int|
        0 <= t < moves.len() ==> (#[trigger] moves[t]).0.0 < nodes.len()
            && nodes[moves[t].0.0 as int].expansion is Some
}

/// An episode that goes on after the moves `back`: the episode `rest` with
/// those moves before its own.
spec fn continued<V>(back: Seq<(NodeRef, Action)>, rest: EpisodeView<V>) -> EpisodeView<V> {
    EpisodeView { nodes: rest.nodes, moves: back + rest.moves, end: rest.end }
}

/// Whether the episode from `root` with the draws `used` and then `rest` is
/// the episode that has made the moves `back` with the draws `used` and goes
/// on from `cur` with `rest`.
spec fn goes_on<const D: usize, S: State<D>>(
    start: Seq<NodeView<S::V>>,
    root: NodeRef,
    sim_count: nat,
    temperature: Temperature,
    used: Seq<Value>,
    rest: Seq<Value>,
    nodes: Seq<NodeView<S::V>>,
    cur: NodeRef,
    back: Seq<(NodeRef, Action)>,
) -> bool {
    episode::<D, S>(start, root, sim_count, temperature, used + rest) == continued(
        back,
        episode::<D, S>(nodes, cur, sim_count, temperature, rest),
    )
}

/// Whether the episode from `root` with the draws `used` and then `rest` has
/// made the moves `back` and ended with `reached`, whatever `rest` holds.
spec fn has_ended<const D: usize, S: State<D>>(
    start: Seq<NodeView<S::V>>,
    root: NodeRef,
    sim_count: nat,
    temperature: Temperature,
    used: Seq<Value>,
    rest: Seq<Value>,
    nodes: Seq<NodeView<S::V>>,
    reached: Result<NodeRef, EpisodeError>,
    back: Seq<(NodeRef, Action)>,
) -> bool {
    episode::<D, S>(start, root, sim_count, temperature, used + rest) == (EpisodeView {
        nodes,
        moves: back,
        end: reached,
    })
}

impl<const D: usize, S: State<D>> Tree<D, S> {
    /// Plays an episode of at most `limit` moves from the root and gives the
    /// examples of its moves, and the draws that it was played with: the
    /// given ones, or else a random number for each move made.
    fn play_episode(
        &mut self,
        sim_count: usize,
        temperature: Temperature,
        limit: usize,
        given: Option<&Vec<Value>>,
    ) -> (played: (Result<Vec<Example<D>>, EpisodeError>, Ghost<Seq<Value>>))
        requires
            old(self).wf(),
            forall|k: int|
                0 <= k < old(self)@.len() ==> (#[trigger] old(self)@[k]).visit_count + sim_count
                    * limit <= usize::MAX,
            given matches Some(draws) ==> draws@.len() == limit,
        ensures
            final(self).wf(),
            final(self).root() == old(self).root(),
            played.1@.len() == limit,
            given matches Some(draws) ==> played.1@ == draws@,
            given is None ==> are_draws(played.1@),
            is_outcome_of::<D, S>(
                final(self)@,
                played.0,
                episode::<D, S>(
                    old(self)@,
                    old(self).root(),
                    sim_count as nat,
                    temperature,
                    played.1@,
                ),
                temperature,
            ),
    {
        let ghost start = self@;
        let ghost root = self.root();
        let mut cur_ref = self.root_ref;
        let mut back: Vec<(NodeRef, Action)> = Vec::new();
        let mut end: Option<Result<NodeRef, EpisodeError>> = None;
        let mut made: usize = 0;
        let ghost mut used: Seq<Value> = Seq::empty();
        proof {
            assert forall|rest: Seq<Value>| rest.len() == limit - made implies #[trigger] goes_on::<
                D,
                S,
            >(start, root, sim_count as nat, temperature, used, rest, self@, cur_ref, back@) by {
                assert(used + rest == rest);
                let played = episode::<D, S>(start, root, sim_count as nat, temperature, rest);
                assert(back@ + played.moves == played.moves);
            }
        }
        while end.is_none() && made < limit
            invariant
                made <= limit,
                self.wf(),
                self.root() == root,
                root == old(self).root(),
                start == old(self)@,
                cur_ref.0 < self@.len(),
                moves_open(self@, back@),
                used.len() == made,
                given matches Some(draws) ==> draws@.len() == limit && used == draws@.take(
                    made as int,
                ),
                given is None ==> are_draws(used),
                end is None ==> forall|k: int|
                    0 <= k < self@.len() ==> (#[trigger] self@[k]).visit_count + sim_count * (limit
                        - made) <= usize::MAX,
                end is None ==> forall|rest: Seq<Value>|
                    rest.len() == limit - made ==> #[trigger] goes_on::<D, S>(
                        start,
                        root,
                        sim_count as nat,
                        temperature,
                        used,
                        rest,
                        self@,
                        cur_ref,
                        back@,
                    ),
                end matches Some(reached) ==> {
                    &&& forall|rest: Seq<Value>|
                        rest.len() == limit - made ==> #[trigger] has_ended::<D, S>(
                            start,
                            root,
                            sim_count as nat,
                            temperature,
                            used,
                            rest,
                            self@,
                            reached,
                            back@,
                        )
                    &&& reached matches Ok(last) ==> last.0 < self@.len()
                        && self@[last.0 as int].reward is Some
                },
            decreases
                    (if end is None {
                        1nat
                    } else {
                        0nat
                    }),
                    limit - made,
        {
            let ghost before = self@;
            let ghost cur_before = cur_ref;
            let ghost moves_before = back@;
            let ghost used_before = used;
            proof {
                assert(sim_count * (limit - made) == sim_count * (limit - made - 1) + sim_count)
                    by (nonlinear_arith);
                assert(sim_count * (limit - made - 1) >= 0) by (nonlinear_arith)
                    requires
                        limit - made - 1 >= 0,
                        sim_count >= 0,
                ;
                assert forall|k: int| 0 <= k < before.len() implies (
                #[trigger] before[k]).visit_count + sim_count <= usize::MAX by {}
                lemma_simulated::<D, S>(before, cur_ref.0 as int, sim_count as nat);
            }
            self.simulate(cur_ref, sim_count);
            let ghost searched = self@;
            proof {
                assert forall|t: int| 0 <= t < back@.len() implies (#[trigger] back@[t]).0.0
                    < searched.len() && searched[back@[t].0.0 as int].expansion is Some by {
                    let k = back@[t].0.0 as int;
                    assert(searched[k] == simulated::<D, S>(
                        before,
                        cur_ref.0 as int,
                        sim_count as nat,
                    )[k]);
                }
                assert(searched[cur_ref.0 as int] == simulated::<D, S>(
                    before,
                    cur_ref.0 as int,
                    sim_count as nat,
                )[cur_ref.0 as int]);
                assert(node_consistent::<D, S>(searched[cur_ref.0 as int]));
            }
            if self.nodes[cur_ref].state.action_count() == 0 {
                end = Some(Err(EpisodeError::NoAction));
                proof {
                    assert forall|rest: Seq<Value>| rest.len() == limit
                        - made implies #[trigger] has_ended::<D, S>(
                        start,
                        root,
                        sim_count as nat,
                        temperature,
                        used,
                        rest,
                        self@,
                        Err(EpisodeError::NoAction),
                        back@,
                    ) by {
                        assert(goes_on::<D, S>(
                            start,
                            root,
                            sim_count as nat,
                            temperature,
                            used,
                            rest,
                            before,
                            cur_before,
                            moves_before,
                        ));
                        let here = episode::<D, S>(
                            before,
                            cur_before,
                            sim_count as nat,
                            temperature,
                            rest,
                        );
                        assert(here.moves == Seq::<(NodeRef, Action)>::empty());
                        assert(moves_before + here.moves == moves_before);
                    }
                }
            } else {
                let draw = match given {
                    Some(draws) => draws[made],
                    None => random_draw(),
                };
                let (action, new_cur_ref) = self.nodes.sample_action_with(
                    cur_ref,
                    temperature,
                    draw,
                );
                back.push((cur_ref, action));
                let ghost open = self@;
                proof {
                    used = used.push(draw);
                    assert forall|k: int| 0 <= k < open.len() implies (
                    #[trigger] open[k]).visit_count + sim_count * (limit - (made + 1))
                        <= usize::MAX by {
                        if k < searched.len() {
                            assert(searched[k] == simulated::<D, S>(
                                before,
                                cur_ref.0 as int,
                                sim_count as nat,
                            )[k]);
                            if k != cur_ref.0 {
                                assert(open[k] == searched[k]);
                            }
                        } else {
                            assert(open[k] == child_nodes::<D, S>(
                                searched[cur_ref.0 as int].state,
                            )[k - searched.len()]);
                            assert(before[0].visit_count + sim_count * (limit - made)
                                <= usize::MAX);
                        }
                    }
                    assert forall|t: int| 0 <= t < back@.len() implies (#[trigger] back@[t]).0.0
                        < open.len() && open[back@[t].0.0 as int].expansion is Some by {
                        if t < moves_before.len() {
                            assert(back@[t] == moves_before[t]);
                            let k = moves_before[t].0.0 as int;
                            if k != cur_ref.0 {
                                assert(open[k] == searched[k]);
                            }
                        }
                    }
                    assert(back@ == moves_before + seq![(cur_ref, action)]);
                    if given is Some {
                        assert(used == given->Some_0@.take(made + 1));
                    }
                }
                cur_ref = new_cur_ref;
                made += 1;
                if self.nodes[cur_ref].reward().is_some() {
                    end = Some(Ok(cur_ref));
                    proof {
                        assert forall|rest: Seq<Value>| rest.len() == limit
                            - made implies #[trigger] has_ended::<D, S>(
                            start,
                            root,
                            sim_count as nat,
                            temperature,
                            used,
                            rest,
                            self@,
                            Ok(cur_ref),
                            back@,
                        ) by {
                            let longer = seq![draw] + rest;
                            assert(used_before + longer == used + rest);
                            assert(longer[0] == draw);
                            assert(goes_on::<D, S>(
                                start,
                                root,
                                sim_count as nat,
                                temperature,
                                used_before,
                                longer,
                                before,
                                cur_before,
                                moves_before,
                            ));
                        }
                    }
                } else {
                    proof {
                        assert forall|rest: Seq<Value>| rest.len() == limit
                            - made implies #[trigger] goes_on::<D, S>(
                            start,
                            root,
                            sim_count as nat,
                            temperature,
                            used,
                            rest,
                            self@,
                            cur_ref,
                            back@,
                        ) by {
                            let longer = seq![draw] + rest;
                            assert(used_before + longer == used + rest);
                            assert(longer[0] == draw);
                            assert(longer.drop_first() == rest);
                            assert(goes_on::<D, S>(
                                start,
                                root,
                                sim_count as nat,
                                temperature,
                                used_before,
                                longer,
                                before,
                                cur_before,
                                moves_before,
                            ));
                            let then = episode::<D, S>(
                                open,
                                new_cur_ref,
                                sim_count as nat,
                                temperature,
                                rest,
                            );
                            assert(moves_before + (seq![(cur_before, action)] + then.moves)
                                == back@ + then.moves);
                        }
                    }
                }
            }
        }
        let ghost rest: Seq<Value> = match given {
            Some(draws) => draws@.skip(made as int),
            None => Seq::new((limit - made) as nat, |i: int| Value { micros: 0 }),
        };
        let ghost all = used + rest;
        proof {
            if given is Some {
                assert(all == given->Some_0@);
            }
            match end {
                None => {
                    assert(goes_on::<D, S>(
                        start,
                        root,
                        sim_count as nat,
                        temperature,
                        used,
                        rest,
                        self@,
                        cur_ref,
                        back@,
                    ));
                    assert(back@ + Seq::<(NodeRef, Action)>::empty() == back@);
                },
                Some(reached) => {
                    assert(has_ended::<D, S>(
                        start,
                        root,
                        sim_count as nat,
                        temperature,
                        used,
                        rest,
                        self@,
                        reached,
                        back@,
                    ));
                },
            }
        }
        let last = match end {
            Some(Ok(last)) => last,
            Some(Err(error)) => {
                return (Err(error), Ghost(all));
            },
            None => {
                return (Err(EpisodeError::MoveLimit), Ghost(all));
            },
        };
        let reward = match self.nodes[last].reward() {
            Some(reward) => *reward,
            None => Value::zero(),
        };
        let count = back.len();
        let mut values: Vec<Value> = Vec::new();
        let mut value = reward;
        let mut done: usize = 0;
        while done < count
            invariant
                done <= count,
                count == back@.len(),
                arena_wf::<D, S>(self@),
                moves_open(self@, back@),
                values@.len() == done,
                value == outcome_value::<D, S>(self@, back@, reward, count - done),
                forall|t: int|
                    0 <= t < done ==> #[trigger] values@[t] == outcome_value::<D, S>(
                        self@,
                        back@,
                        reward,
                        count - 1 - t,
                    ),
            decreases count - done,
        {
            let (node_ref, action) = back[count - 1 - done];
            assert(back@[count - 1 - done].0.0 < self@.len());
            assert(node_consistent::<D, S>(self@[node_ref.0 as int]));
            value = self.nodes[node_ref].state.value(action, value);
            values.push(value);
            done += 1;
        }
        let mut examples: Vec<Example<D>> = Vec::new();
        let mut t: usize = 0;
        while t < count
            invariant
                t <= count,
                count == back@.len(),
                arena_wf::<D, S>(self@),
                moves_open(self@, back@),
                values@.len() == count,
                forall|u: int|
                    0 <= u < count ==> #[trigger] values@[u] == outcome_value::<D, S>(
                        self@,
                        back@,
                        reward,
                        count - 1 - u,
                    ),
                examples@.len() == t,
                forall|u: int|
                    0 <= u < t ==> is_example_of::<D, S>(
                        #[trigger] examples@[u],
                        self@[back@[u].0.0 as int],
                        temperature,
                        outcome_value::<D, S>(self@, back@, reward, u),
                    ),
            decreases count - t,
        {
            let (node_ref, _) = back[t];
            assert(back@[t as int].0.0 < self@.len());
            assert(node_consistent::<D, S>(self@[node_ref.0 as int]));
            let node = &self.nodes[node_ref];
            let example = Example {
                state: node.state.as_array(),
                pi: node.action_probability(temperature),
                value: values[count - 1 - t],
            };
            examples.push(example);
            t += 1;
        }
        (Ok(examples), Ghost(all))
    }

    /// Plays an episode from the root with the given draws, one for each move
    /// that may be made, and gives the examples of its moves.
    ///
    /// Before each move `sim_count` simulations are run from the current
    /// node; the draw then samples the move. The episode is over when a move
    /// leads to a terminal node.
    pub fn execute_episode_with(
        &mut self,
        sim_count: usize,
        temperature: Temperature,
        draws: &Vec<Value>,
    ) -> (result: Result<Vec<Example<D>>, EpisodeError>)
        requires
            old(self).wf(),
            forall|k: int|
                0 <= k < old(self)@.len() ==> (#[trigger] old(self)@[k]).visit_count + sim_count
                    * draws@.len() <= usize::MAX,
        ensures
            final(self).wf(),
            final(self).root() == old(self).root(),
            is_outcome_of::<D, S>(
                final(self)@,
                result,
                episode::<D, S>(
                    old(self)@,
                    old(self).root(),
                    sim_count as nat,
                    temperature,
                    draws@,
                ),
                temperature,
            ),
    {
        let (result, _) = self.play_episode(sim_count, temperature, draws.len(), Some(draws));
        result
    }

    /// Plays an episode of at most `max_moves` moves from the root and gives
    /// the examples of its moves.
    ///
    /// Before each move `sim_count` simulations are run from the current
    /// node; a random number from 0 up to, and without, 1 then samples the
    /// move. The episode is over when a move leads to a terminal node.
    pub fn execute_episode(
        &mut self,
        sim_count: usize,
        temperature: Temperature,
        max_moves: usize,
    ) -> (result: Result<Vec<Example<D>>, EpisodeError>)
        requires
            old(self).wf(),
            forall|k: int|
                0 <= k < old(self)@.len() ==> (#[trigger] old(self)@[k]).visit_count + sim_count
                    * max_moves <= usize::MAX,
        ensures
            final(self).wf(),
            final(self).root() == old(self).root(),
            exists|draws: Seq<Value>|
                draws.len() == max_moves && are_draws(draws) && is_outcome_of::<D, S>(
                    final(self)@,
                    result,
                    #[trigger] episode::<D, S>(
                        old(self)@,
                        old(self).root(),
                        sim_count as nat,
                        temperature,
                        draws,
                    ),
                    temperature,
                ),
    {
        let (result, _) = self.play_episode(sim_count, temperature, max_moves, None);
        result
    }
}

impl<const D: usize, S: State<D>> Default for Tree<D, S> {
    fn default() -> (tree: Self)
        ensures
            tree.wf(),
            tree.root() == NodeRef(0),
            tree@ == seq![fresh_node::<D, S>(S::spec_init())],
    {
        Self::new()
    }
}

impl<const D: usize, S: State<D>> Default for Nodes<D, S> {
    /// An arena without any node.
    fn default() -> (nodes: Self)
        ensures
            nodes@ == Seq::<NodeView<S::V>>::empty(),
    {
        let nodes = Nodes(Vec::new());
        assert(nodes@ =~= Seq::<NodeView<S::V>>::empty());
        nodes
    }
}

} // verus!
