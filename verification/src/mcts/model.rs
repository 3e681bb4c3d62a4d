//! The search as the contracts see it: nodes and arenas as values, and what
//! expansion, selection, simulation, sampling and an episode make of them.

use crate::env::{picture, Action, State};
use crate::mcts::{EXPLORE_FACTOR, EpisodeError, Example, NodeRef, Stats, Temperature};
use crate::mcts::proofs::lemma_selection;
use crate::share::{fine_pow, fine_ratio, fine_root, int_pow, round_div, FINE};
use crate::value::{
    add_spec, div_count_spec, mul_spec, ratio_spec, sqrt_count_spec, trunc_div, SCALE, Value,
};
use vstd::prelude::*;

verus! {

/// Q(s, a) = W(s, a) / N(s, a), for an action that has been taken.
pub open spec fn quality_spec(stats: Stats) -> int
    recommends
        stats.count > 0,
{
    div_count_spec(stats.total_value@, stats.count as int)
}

/// The exploration bonus `c * P(s, a) * sqrt(N(s)) / (1 + N(s, a))`.
pub open spec fn bonus_spec(stats: Stats, visit_count: usize, explore_factor: int) -> int {
    trunc_div(
        mul_spec(mul_spec(explore_factor, stats.prior@), sqrt_count_spec(visit_count as nat)),
        1 + stats.count,
    )
}

/// PUCT(s, a) = Q(s, a) + c * P(s, a) * sqrt(N(s)) / (1 + N(s, a)), where
/// Q(s, a) counts as 0 for an action that has not been taken.
pub open spec fn puct_spec(stats: Stats, visit_count: usize, explore_factor: int) -> int {
    add_spec(
        if stats.count > 0 {
            quality_spec(stats)
        } else {
            0
        },
        bonus_spec(stats, visit_count, explore_factor),
    )
}

/// The sum of the counts of a state's actions.
pub open spec fn sum_counts(stats: Seq<Stats>) -> nat
    decreases stats.len(),
{
    if stats.len() == 0 {
        0
    } else {
        sum_counts(stats.drop_last()) + stats.last().count as nat
    }
}

/// The handles `first, first + 1, ..` of the `count` children of a node.
pub open spec fn child_refs(first: NodeRef, count: nat) -> Seq<NodeRef> {
    Seq::new(count, |j: int| NodeRef((first.0 + j) as usize))
}

/// The statistics of a newly expanded state with `count` actions: nothing
/// counted, and the same prior `1 / count` for each action.
pub open spec fn uniform_stats(count: nat) -> Seq<Stats> {
    Seq::new(
        count,
        |j: int|
            Stats {
                count: 0,
                total_value: Value { micros: 0 },
                prior: Value { micros: ratio_spec(1, count) as i64 },
            },
    )
}

/// One position of the tree as the contracts see it.
pub ghost struct NodeView<V> {
    /// The state at this position.
    pub state: V,
    /// N(s): the number of times the state has been visited.
    pub visit_count: usize,
    /// The state's reward, kept from when the node was made.
    pub reward: Option<Value>,
    /// The children and the statistics of the state's actions, once the node
    /// has been expanded.
    pub expansion: Option<ExpansionView>,
}

/// The expansion of a node as the contracts see it.
pub ghost struct ExpansionView {
    /// The child for each action.
    pub children: Seq<NodeRef>,
    /// The statistics of each action.
    pub stats: Seq<Stats>,
}

/// The node that is made for a state.
pub open spec fn fresh_node<const D: usize, S: State<D>>(state: S::V) -> NodeView<S::V> {
    NodeView { state, visit_count: 0, reward: S::spec_reward(state), expansion: None }
}

/// A node with its expansion filled in, if it had none.
pub open spec fn expanded_node<const D: usize, S: State<D>>(
    node: NodeView<S::V>,
    first_child: NodeRef,
) -> NodeView<S::V> {
    if node.expansion is Some {
        node
    } else {
        NodeView {
            expansion: Some(
                ExpansionView {
                    children: child_refs(first_child, S::spec_action_count(node.state)),
                    stats: uniform_stats(S::spec_action_count(node.state)),
                },
            ),
            ..node
        }
    }
}

/// What holds of every node by itself: the state is one of the domain, the
/// reward is the state's, an expansion has one child and one entry for each
/// action, and the counts of the actions add up to the visits of the state.
pub open spec fn node_consistent<const D: usize, S: State<D>>(node: NodeView<S::V>) -> bool {
    &&& S::inv(node.state)
    &&& node.reward == S::spec_reward(node.state)
    &&& match node.expansion {
        Some(expansion) => {
            &&& expansion.children.len() == S::spec_action_count(node.state)
            &&& expansion.stats.len() == S::spec_action_count(node.state)
            &&& sum_counts(expansion.stats) == node.visit_count
            &&& node.visit_count > 0 ==> expansion.stats.len() > 0
        },
        None => node.visit_count == 0,
    }
}

/// Whether the child of node `i` for action `j` lies behind its parent in the
/// arena and holds the state that the action leads to.
pub open spec fn child_linked<const D: usize, S: State<D>>(
    nodes: Seq<NodeView<S::V>>,
    i: int,
    j: int,
) -> bool {
    let child = nodes[i].expansion->Some_0.children[j];
    &&& i < child.0 < nodes.len()
    &&& nodes[child.0 as int].state == S::spec_take(nodes[i].state, Action(j as usize))
}

/// What holds of an arena: every node is consistent, and every child is
/// linked to its parent.
pub open spec fn arena_wf<const D: usize, S: State<D>>(nodes: Seq<NodeView<S::V>>) -> bool {
    &&& forall|i: int| 0 <= i < nodes.len() ==> #[trigger] node_consistent::<D, S>(nodes[i])
    &&& forall|i: int, j: int|
        0 <= i < nodes.len() && nodes[i].expansion is Some && 0 <= j
            < nodes[i].expansion->Some_0.children.len() ==> #[trigger] child_linked::<D, S>(
            nodes,
            i,
            j,
        )
}

/// The PUCT score of each action of a state.
pub open spec fn scores(stats: Seq<Stats>, visit_count: usize, explore_factor: int) -> Seq<int> {
    Seq::new(stats.len(), |a: int| puct_spec(stats[a], visit_count, explore_factor))
}

/// The position of the first of the largest scores (0 where there is no
/// score).
pub open spec fn first_max(scores: Seq<int>) -> int
    decreases scores.len(),
{
    if scores.len() <= 1 {
        0
    } else {
        let best = first_max(scores.drop_last());
        if scores.last() > scores[best] {
            scores.len() - 1
        } else {
            best
        }
    }
}

/// The action that an expanded node selects, and the child that it leads to.
pub open spec fn selection<V>(node: NodeView<V>, explore_factor: int) -> (Action, NodeRef) {
    let expansion = node.expansion->Some_0;
    let best = first_max(scores(expansion.stats, node.visit_count, explore_factor));
    (Action(best as usize), expansion.children[best])
}

/// The nodes that are made for the children of a state, in the order of its
/// actions.
pub open spec fn child_nodes<const D: usize, S: State<D>>(state: S::V) -> Seq<NodeView<S::V>> {
    Seq::new(
        S::spec_action_count(state),
        |j: int| fresh_node::<D, S>(S::spec_take(state, Action(j as usize))),
    )
}

/// The arena after node `i` has been asked to expand: unchanged if the node
/// was expanded, else with the node expanded and its children added at the
/// end.
pub open spec fn opened<const D: usize, S: State<D>>(
    nodes: Seq<NodeView<S::V>>,
    i: int,
) -> Seq<NodeView<S::V>> {
    if nodes[i].expansion is Some {
        nodes
    } else {
        nodes.update(i, expanded_node::<D, S>(nodes[i], NodeRef(nodes.len() as usize)))
            + child_nodes::<D, S>(nodes[i].state)
    }
}

/// Whether every action of a state leads to a state of the domain.
pub open spec fn children_inv<const D: usize, S: State<D>>(state: S::V) -> bool {
    forall|j: int|
        0 <= j < S::spec_action_count(state) ==> S::inv(
            #[trigger] S::spec_take(state, Action(j as usize)),
        )
}

/// Whether a simulation goes on below a node: the node has been visited and
/// its state is not terminal.
pub open spec fn descends<V>(node: NodeView<V>) -> bool {
    node.visit_count > 0 && node.reward is None
}

/// The value that a simulation finds where it stops: the reward of a terminal
/// state, 0 for any other state.
pub open spec fn leaf_value<V>(node: NodeView<V>) -> Value {
    match node.reward {
        Some(reward) => reward,
        None => Value { micros: 0 },
    }
}

/// The statistics of an action after `value` has been backed up through it.
pub open spec fn counted(stats: Stats, value: Value) -> Stats {
    Stats {
        count: (stats.count + 1) as usize,
        total_value: Value { micros: add_spec(stats.total_value@, value@) as i64 },
        prior: stats.prior,
    }
}

/// An expanded node after `value` has been backed up through `action`: one
/// more visit, and the action counted.
pub open spec fn backed_up<V>(node: NodeView<V>, action: Action, value: Value) -> NodeView<V> {
    let expansion = node.expansion->Some_0;
    NodeView {
        visit_count: (node.visit_count + 1) as usize,
        expansion: Some(
            ExpansionView {
                children: expansion.children,
                stats: expansion.stats.update(
                    action.0 as int,
                    counted(expansion.stats[action.0 as int], value),
                ),
            },
        ),
        ..node
    }
}

/// The sum of the counts of a node's actions, 0 for a node that has not been
/// expanded.
pub open spec fn action_visits<V>(node: NodeView<V>) -> nat {
    match node.expansion {
        Some(expansion) => sum_counts(expansion.stats),
        None => 0,
    }
}

/// One simulation from node `cur`: the arena after it, and the value that it
/// backs up to `cur`.
///
/// While the node has been visited and is not terminal, the simulation goes
/// on in the selected child; then every node on the way is visited once more
/// and counts the value for its action, seen from its own state.
pub open spec fn simulated_once<const D: usize, S: State<D>>(
    nodes: Seq<NodeView<S::V>>,
    cur: int,
) -> (Seq<NodeView<S::V>>, Value)
    decreases nodes.len() - cur,
{
    if arena_wf::<D, S>(nodes) && 0 <= cur < nodes.len() && descends(nodes[cur]) {
        let selected = selection(nodes[cur], EXPLORE_FACTOR as int);
        proof {
            lemma_selection::<D, S>(nodes, cur);
        }
        let below = simulated_once::<D, S>(nodes, selected.1.0 as int);
        let own = S::spec_value(nodes[cur].state, selected.0, below.1);
        (below.0.update(cur, backed_up(nodes[cur], selected.0, own)), own)
    } else {
        (nodes, leaf_value(nodes[cur]))
    }
}

/// `count` simulations from node `cur`, one after the other.
pub open spec fn simulated<const D: usize, S: State<D>>(
    nodes: Seq<NodeView<S::V>>,
    cur: int,
    count: nat,
) -> Seq<NodeView<S::V>>
    decreases count,
{
    if count == 0 {
        nodes
    } else {
        simulated_once::<D, S>(simulated::<D, S>(nodes, cur, (count - 1) as nat), cur).0
    }
}

/// The largest count among the first `upto` actions, 0 where there is none.
pub open spec fn largest_count(stats: Seq<Stats>, upto: int) -> nat
    decreases upto,
{
    if upto <= 0 {
        0
    } else {
        let before = largest_count(stats, upto - 1);
        if stats[upto - 1].count > before {
            stats[upto - 1].count as nat
        } else {
            before
        }
    }
}

/// Whether a temperature is 1.
pub open spec fn is_one(temperature: Temperature) -> bool {
    temperature.inverse == 1 && temperature.root <= 1
}

/// The weight of an action, up to a factor that is the same for all actions
/// of the state: `N(s, a) ^ (1 / temperature)`.
///
/// At the temperature 1 it is the count itself. At any other it is the share
/// of the count in the largest count of the state, at the fine scale, of
/// which the root of order `root` is taken and raised to the power `inverse`.
pub open spec fn weight_spec(stats: Stats, largest: nat, temperature: Temperature) -> int {
    if is_one(temperature) {
        stats.count as int
    } else {
        let share = fine_ratio(stats.count as nat, largest);
        let rooted = if temperature.root <= 1 {
            share
        } else {
            fine_root(share, temperature.root as nat)
        };
        fine_pow(rooted, temperature.inverse as nat)
    }
}

/// The weight of an action with the largest count, which no weight exceeds.
pub open spec fn top_weight(largest: nat, temperature: Temperature) -> int {
    if is_one(temperature) {
        largest as int
    } else {
        FINE as int
    }
}

/// The weight of each action of a state.
pub open spec fn weights(stats: Seq<Stats>, temperature: Temperature) -> Seq<int> {
    Seq::new(
        stats.len(),
        |a: int| weight_spec(stats[a], largest_count(stats, stats.len() as int), temperature),
    )
}

/// The sum of the first `upto` numbers.
pub open spec fn total(numbers: Seq<int>, upto: int) -> int
    decreases upto,
{
    if upto <= 0 {
        0
    } else {
        total(numbers, upto - 1) + numbers[upto - 1]
    }
}

/// A weight divided by the sum of all weights, in millionths, rounded to the
/// nearest; 0 where the weights add up to nothing.
pub open spec fn probability_spec(weight: int, sum: int) -> int {
    if sum <= 0 {
        0
    } else {
        round_div(weight * SCALE, sum)
    }
}

/// The probability that each action of a state is taken: its weight
/// `N(s, a) ^ (1 / temperature)` divided by the sum of the weights of all
/// actions.
pub open spec fn probabilities(stats: Seq<Stats>, temperature: Temperature) -> Seq<Value> {
    let all = weights(stats, temperature);
    Seq::new(
        stats.len(),
        |a: int|
            Value { micros: probability_spec(all[a], total(all, stats.len() as int)) as i64 },
    )
}

/// Whether `p` millionths are less than a millionth away from the fraction
/// `part / whole`.
pub open spec fn is_within_a_millionth(p: int, part: int, whole: int) -> bool {
    whole > 0 && -whole < p * whole - SCALE * part < whole
}

/// The counts of some actions, raised to the power `k`.
pub open spec fn count_powers(stats: Seq<Stats>, k: nat) -> Seq<int> {
    Seq::new(stats.len(), |a: int| int_pow(stats[a].count as int, k))
}

/// The numbers of some values.
pub open spec fn micros_of(values: Seq<Value>) -> Seq<int> {
    Seq::new(values.len(), |a: int| values[a]@)
}

/// The sum of the qualities of the first `upto` actions.
pub open spec fn quality_sum(stats: Seq<Stats>, upto: int) -> int
    decreases upto,
{
    if upto <= 0 {
        0
    } else {
        add_spec(quality_sum(stats, upto - 1), quality_spec(stats[upto - 1]))
    }
}

/// The mean of the qualities of a state's actions.
pub open spec fn mean_quality_spec(stats: Seq<Stats>) -> int
    recommends
        stats.len() > 0,
{
    div_count_spec(quality_sum(stats, stats.len() as int), stats.len() as int)
}

/// The sum of the first `upto` weights.
pub open spec fn cumulative(weights: Seq<Value>, upto: int) -> int
    decreases upto,
{
    if upto <= 0 {
        0
    } else {
        add_spec(cumulative(weights, upto - 1), weights[upto - 1]@)
    }
}

/// The first position from `from` on up to which the weights add up to at
/// least `draw`, and the last position if there is none.
pub open spec fn sampled_from(weights: Seq<Value>, draw: int, from: int) -> int
    decreases weights.len() - from,
{
    if from + 1 >= weights.len() {
        weights.len() - 1
    } else if cumulative(weights, from + 1) >= draw {
        from
    } else {
        sampled_from(weights, draw, from + 1)
    }
}

/// The position that a draw picks among weighted positions: the first up to
/// which the weights add up to at least the draw, and the last if there is
/// none.
pub open spec fn sampled(weights: Seq<Value>, draw: int) -> int {
    sampled_from(weights, draw, 0)
}

/// The action that a draw samples at an expanded node, and the child that it
/// leads to.
pub open spec fn sampling<V>(node: NodeView<V>, temperature: Temperature, draw: Value) -> (
    Action,
    NodeRef,
) {
    let expansion = node.expansion->Some_0;
    let a = sampled(probabilities(expansion.stats, temperature), draw@);
    (Action(a as usize), expansion.children[a])
}

/// An episode as the contracts see it.
pub ghost struct EpisodeView<V> {
    /// The arena after the episode.
    pub nodes: Seq<NodeView<V>>,
    /// The moves made: the node moved from and the action taken.
    pub moves: Seq<(NodeRef, Action)>,
    /// The terminal node that the episode reached, or why it reached none.
    pub end: Result<NodeRef, EpisodeError>,
}

/// The episode played from node `cur` with the given draws, one draw for each
/// move that may be made.
///
/// For each move, `sim_count` simulations are run from the current node, the
/// node is expanded, and the draw samples the action to take; the episode ends
/// in the first terminal node that a move leads to. It ends without one where
/// no draw is left, or where the current state has no action.
pub open spec fn episode<const D: usize, S: State<D>>(
    nodes: Seq<NodeView<S::V>>,
    cur: NodeRef,
    sim_count: nat,
    temperature: Temperature,
    draws: Seq<Value>,
) -> EpisodeView<S::V>
    decreases draws.len(),
{
    if draws.len() == 0 {
        EpisodeView { nodes, moves: Seq::empty(), end: Err(EpisodeError::MoveLimit) }
    } else {
        let searched = simulated::<D, S>(nodes, cur.0 as int, sim_count);
        if S::spec_action_count(searched[cur.0 as int].state) == 0 {
            EpisodeView { nodes: searched, moves: Seq::empty(), end: Err(EpisodeError::NoAction) }
        } else {
            let open = opened::<D, S>(searched, cur.0 as int);
            let step = sampling(open[cur.0 as int], temperature, draws[0]);
            if open[step.1.0 as int].reward is Some {
                EpisodeView { nodes: open, moves: seq![(cur, step.0)], end: Ok(step.1) }
            } else {
                let rest = episode::<D, S>(
                    open,
                    step.1,
                    sim_count,
                    temperature,
                    draws.drop_first(),
                );
                EpisodeView {
                    nodes: rest.nodes,
                    moves: seq![(cur, step.0)] + rest.moves,
                    end: rest.end,
                }
            }
        }
    }
}

/// The outcome of an episode seen from the state of move `from`: the reward
/// of the terminal state, carried back through every move from the last to
/// that one, each state giving its own value for the value of the state that
/// its move led to.
pub open spec fn outcome_value<const D: usize, S: State<D>>(
    nodes: Seq<NodeView<S::V>>,
    moves: Seq<(NodeRef, Action)>,
    reward: Value,
    from: int,
) -> Value
    decreases moves.len() - from,
{
    if from >= moves.len() {
        reward
    } else {
        S::spec_value(
            nodes[moves[from].0.0 as int].state,
            moves[from].1,
            outcome_value::<D, S>(nodes, moves, reward, from + 1),
        )
    }
}

/// Whether `example` is the example of a move made from `node`, for an
/// outcome that is `value` from there.
pub open spec fn is_example_of<const D: usize, S: State<D>>(
    example: Example<D>,
    node: NodeView<S::V>,
    temperature: Temperature,
    value: Value,
) -> bool {
    &&& picture(example.state) == S::spec_as_array(node.state)
    &&& example.pi@ == probabilities(node.expansion->Some_0.stats, temperature)
    &&& example.value == value
}

/// Whether `examples` are the examples of a finished episode: one for each
/// move, in the order of the moves.
pub open spec fn are_examples_of<const D: usize, S: State<D>>(
    examples: Seq<Example<D>>,
    played: EpisodeView<S::V>,
    temperature: Temperature,
) -> bool {
    let reward = played.nodes[played.end->Ok_0.0 as int].reward->Some_0;
    &&& examples.len() == played.moves.len()
    &&& forall|t: int|
        0 <= t < examples.len() ==> is_example_of::<D, S>(
            #[trigger] examples[t],
            played.nodes[played.moves[t].0.0 as int],
            temperature,
            outcome_value::<D, S>(played.nodes, played.moves, reward, t),
        )
}

/// Whether an arena and a result are those of an episode: the arena is the
/// one after the episode; where the episode reached a terminal node, the
/// result holds the examples of its moves, and else the reason why it reached
/// none.
pub open spec fn is_outcome_of<const D: usize, S: State<D>>(
    nodes: Seq<NodeView<S::V>>,
    result: Result<Vec<Example<D>>, EpisodeError>,
    played: EpisodeView<S::V>,
    temperature: Temperature,
) -> bool {
    &&& nodes == played.nodes
    &&& match result {
        Ok(examples) => played.end is Ok && are_examples_of::<D, S>(
            examples@,
            played,
            temperature,
        ),
        Err(error) => played.end == Err::<NodeRef, EpisodeError>(error),
    }
}

/// Whether every draw is a number from 0 up to, and without, 1.
pub open spec fn are_draws(draws: Seq<Value>) -> bool {
    forall|i: int| 0 <= i < draws.len() ==> 0 <= (#[trigger] draws[i])@ < SCALE
}

} // verus!
