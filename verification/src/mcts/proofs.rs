//! What holds of the search: the properties of selection, expansion,
//! simulation and sampling that the contracts rest on.

use crate::env::{Action, State};
use crate::mcts::{EXPLORE_FACTOR, NodeRef, Stats, Temperature};
use crate::mcts::model::{
    action_visits, arena_wf, backed_up, child_linked, child_nodes, children_inv, count_powers,
    counted, cumulative, descends, expanded_node, first_max, is_one, is_within_a_millionth,
    largest_count, micros_of, node_consistent, opened, probabilities, probability_spec, sampled,
    sampled_from, scores, selection, simulated, simulated_once, sum_counts, top_weight, total,
    uniform_stats, weight_spec, weights, NodeView,
};
use crate::share::{
    fine_pow, fine_ratio, fine_root, int_pow, lemma_fine_pow, lemma_fine_pow_is_close,
    lemma_fine_ratio, lemma_fine_root, lemma_int_pow, round_div, FINE,
};
use crate::value::{SCALE, Value};
use vstd::prelude::*;

verus! {

/// `first_max` is the first position that holds the largest score: no score
/// is larger, and every score before it is smaller.
pub proof fn lemma_first_max(scores: Seq<int>)
    requires
        scores.len() > 0,
    ensures
        0 <= first_max(scores) < scores.len(),
        forall|a: int|
            0 <= a < scores.len() ==> #[trigger] scores[a] <= scores[first_max(scores)],
        forall|a: int|
            0 <= a < first_max(scores) ==> #[trigger] scores[a] < scores[first_max(scores)],
    decreases scores.len(),
{
    if scores.len() > 1 {
        let front = scores.drop_last();
        lemma_first_max(front);
        assert(forall|a: int| 0 <= a < front.len() ==> front[a] == scores[a]);
    }
}

/// With all scores tied, the first action is selected.
pub proof fn lemma_first_max_of_ties(scores: Seq<int>)
    requires
        forall|a: int, b: int|
            0 <= a < scores.len() && 0 <= b < scores.len() ==> #[trigger] scores[a]
                == #[trigger] scores[b],
    ensures
        first_max(scores) == 0,
{
    if scores.len() > 0 {
        lemma_first_max(scores);
        assert(scores[0] == scores[first_max(scores)]);
    }
}

/// Expanding a node keeps the arena well-formed and changes no node but the
/// expanded one.
pub proof fn lemma_opened_wf<const D: usize, S: State<D>>(nodes: Seq<NodeView<S::V>>, i: int)
    requires
        arena_wf::<D, S>(nodes),
        0 <= i < nodes.len(),
        children_inv::<D, S>(nodes[i].state),
        nodes[i].expansion is None ==> nodes.len() + S::spec_action_count(nodes[i].state)
            <= usize::MAX,
    ensures
        arena_wf::<D, S>(opened::<D, S>(nodes, i)),
        opened::<D, S>(nodes, i)[i].expansion is Some,
        opened::<D, S>(nodes, i).len() >= nodes.len(),
        forall|k: int| 0 <= k < nodes.len() && k != i ==> opened::<D, S>(nodes, i)[k] == nodes[k],
{
    let after = opened::<D, S>(nodes, i);
    if nodes[i].expansion is None {
        let count = S::spec_action_count(nodes[i].state);
        let first = NodeRef(nodes.len() as usize);
        let stats = uniform_stats(count);
        lemma_sum_counts_zero(stats);
        assert(node_consistent::<D, S>(nodes[i]));
        assert forall|k: int| 0 <= k < after.len() implies #[trigger] node_consistent::<D, S>(
            after[k],
        ) by {
            if k < nodes.len() && k != i {
                assert(node_consistent::<D, S>(nodes[k]));
            } else if k >= nodes.len() {
                assert(after[k] == child_nodes::<D, S>(nodes[i].state)[k - nodes.len()]);
            }
        }
        assert forall|k: int, j: int|
            0 <= k < after.len() && after[k].expansion is Some && 0 <= j
                < after[k].expansion->Some_0.children.len() implies #[trigger] child_linked::<
            D,
            S,
        >(after, k, j) by {
            if k == i {
                assert(after[k].expansion->Some_0.children[j] == NodeRef(
                    (first.0 + j) as usize,
                ));
                assert(after[nodes.len() + j] == child_nodes::<D, S>(nodes[i].state)[j]);
            } else {
                assert(k < nodes.len());
                assert(child_linked::<D, S>(nodes, k, j));
            }
        }
    }
}

/// A node is expanded once: asking an arena again to expand a node changes
/// nothing, whatever handle is offered for its children.
pub proof fn lemma_opened_once<const D: usize, S: State<D>>(
    nodes: Seq<NodeView<S::V>>,
    i: int,
    first_child: NodeRef,
    other_child: NodeRef,
)
    requires
        0 <= i < nodes.len(),
    ensures
        opened::<D, S>(opened::<D, S>(nodes, i), i) == opened::<D, S>(nodes, i),
        expanded_node::<D, S>(expanded_node::<D, S>(nodes[i], first_child), other_child)
            == expanded_node::<D, S>(nodes[i], first_child),
{
}

/// What expanding a node adds: one node for each action of its state, in the
/// order of the actions, each holding the state that the action leads to,
/// not visited and not expanded. The node itself keeps its state, its reward
/// and its visits, and no other node changes.
pub proof fn lemma_opened_children<const D: usize, S: State<D>>(
    nodes: Seq<NodeView<S::V>>,
    i: int,
)
    requires
        0 <= i < nodes.len(),
        nodes[i].expansion is None,
    ensures
        opened::<D, S>(nodes, i).len() == nodes.len() + S::spec_action_count(nodes[i].state),
        forall|j: int|
            0 <= j < S::spec_action_count(nodes[i].state) ==> #[trigger] opened::<D, S>(
                nodes,
                i,
            )[nodes.len() + j] == (NodeView {
                state: S::spec_take(nodes[i].state, Action(j as usize)),
                visit_count: 0,
                reward: S::spec_reward(S::spec_take(nodes[i].state, Action(j as usize))),
                expansion: None,
            }),
        opened::<D, S>(nodes, i)[i].state == nodes[i].state,
        opened::<D, S>(nodes, i)[i].reward == nodes[i].reward,
        opened::<D, S>(nodes, i)[i].visit_count == nodes[i].visit_count,
        opened::<D, S>(nodes, i)[i].expansion is Some,
        forall|k: int| 0 <= k < nodes.len() && k != i ==> opened::<D, S>(nodes, i)[k] == nodes[k],
{
    let after = opened::<D, S>(nodes, i);
    assert forall|j: int| 0 <= j < S::spec_action_count(nodes[i].state) implies #[trigger] after[
        nodes.len() + j
    ] == (NodeView {
        state: S::spec_take(nodes[i].state, Action(j as usize)),
        visit_count: 0,
        reward: S::spec_reward(S::spec_take(nodes[i].state, Action(j as usize))),
        expansion: None,
    }) by {
        assert(after[nodes.len() + j] == child_nodes::<D, S>(nodes[i].state)[j]);
    }
}

/// Statistics with nothing counted add up to 0.
pub proof fn lemma_sum_counts_zero(stats: Seq<Stats>)
    requires
        forall|a: int| 0 <= a < stats.len() ==> stats[a].count == 0,
    ensures
        sum_counts(stats) == 0,
    decreases stats.len(),
{
    if stats.len() > 0 {
        lemma_sum_counts_zero(stats.drop_last());
    }
}

/// In a well-formed arena a node below which a simulation goes on selects one
/// of its actions, and the child lies behind it.
pub proof fn lemma_selection<const D: usize, S: State<D>>(nodes: Seq<NodeView<S::V>>, cur: int)
    requires
        arena_wf::<D, S>(nodes),
        0 <= cur < nodes.len(),
        descends(nodes[cur]),
    ensures
        nodes[cur].expansion is Some,
        selection(nodes[cur], EXPLORE_FACTOR as int).0.0
            < nodes[cur].expansion->Some_0.stats.len(),
        cur < selection(nodes[cur], EXPLORE_FACTOR as int).1.0 < nodes.len(),
{
    assert(node_consistent::<D, S>(nodes[cur]));
    let expansion = nodes[cur].expansion->Some_0;
    let all = scores(expansion.stats, nodes[cur].visit_count, EXPLORE_FACTOR as int);
    lemma_first_max(all);
    assert(child_linked::<D, S>(nodes, cur, first_max(all)));
}

/// No action has been counted more often than all actions together.
pub proof fn lemma_count_le_sum(stats: Seq<Stats>, a: int)
    requires
        0 <= a < stats.len(),
    ensures
        stats[a].count <= sum_counts(stats),
    decreases stats.len(),
{
    if a < stats.len() - 1 {
        lemma_count_le_sum(stats.drop_last(), a);
    }
}

/// Counting one action once more raises the sum of the counts by one.
pub proof fn lemma_sum_counts_counted(stats: Seq<Stats>, a: int, value: Value)
    requires
        0 <= a < stats.len(),
        stats[a].count < usize::MAX,
    ensures
        sum_counts(stats.update(a, counted(stats[a], value))) == sum_counts(stats) + 1,
    decreases stats.len(),
{
    let after = stats.update(a, counted(stats[a], value));
    if a < stats.len() - 1 {
        lemma_sum_counts_counted(stats.drop_last(), a, value);
        assert(after.drop_last() == stats.drop_last().update(
            a,
            counted(stats.drop_last()[a], value),
        ));
    } else {
        assert(after.drop_last() == stats.drop_last());
    }
}

/// What one simulation changes and what it keeps.
///
/// The arena stays well-formed and keeps its length; the nodes before `cur`
/// are untouched; every node keeps its state, its reward and its children;
/// no node is visited more than once more; and `cur` itself is backed up
/// exactly if the simulation went on below it.
pub proof fn lemma_simulated_once<const D: usize, S: State<D>>(
    nodes: Seq<NodeView<S::V>>,
    cur: int,
)
    requires
        arena_wf::<D, S>(nodes),
        0 <= cur < nodes.len(),
        forall|k: int| 0 <= k < nodes.len() ==> (#[trigger] nodes[k]).visit_count < usize::MAX,
    ensures
        arena_wf::<D, S>(simulated_once::<D, S>(nodes, cur).0),
        simulated_once::<D, S>(nodes, cur).0.len() == nodes.len(),
        forall|k: int| 0 <= k < cur ==> simulated_once::<D, S>(nodes, cur).0[k] == nodes[k],
        forall|k: int|
            0 <= k < nodes.len() ==> {
                let after = #[trigger] simulated_once::<D, S>(nodes, cur).0[k];
                &&& after.state == nodes[k].state
                &&& after.reward == nodes[k].reward
                &&& after.expansion is Some <==> nodes[k].expansion is Some
                &&& after.expansion is Some ==> after.expansion->Some_0.children
                    == nodes[k].expansion->Some_0.children
                &&& nodes[k].visit_count <= after.visit_count <= nodes[k].visit_count + 1
            },
        descends(nodes[cur]) ==> simulated_once::<D, S>(nodes, cur).0[cur] == backed_up(
            nodes[cur],
            selection(nodes[cur], EXPLORE_FACTOR as int).0,
            simulated_once::<D, S>(nodes, cur).1,
        ),
        !descends(nodes[cur]) ==> simulated_once::<D, S>(nodes, cur).0 == nodes,
        action_visits(simulated_once::<D, S>(nodes, cur).0[cur]) == action_visits(nodes[cur]) + (
        if descends(nodes[cur]) {
            1nat
        } else {
            0nat
        }),
    decreases nodes.len() - cur,
{
    if descends(nodes[cur]) {
        lemma_selection::<D, S>(nodes, cur);
        let selected = selection(nodes[cur], EXPLORE_FACTOR as int);
        let child = selected.1.0 as int;
        let a = selected.0.0 as int;
        lemma_simulated_once::<D, S>(nodes, child);
        let below = simulated_once::<D, S>(nodes, child);
        let own = S::spec_value(nodes[cur].state, selected.0, below.1);
        let node = backed_up(nodes[cur], selected.0, own);
        let after = below.0.update(cur, node);
        assert(simulated_once::<D, S>(nodes, cur).0 == after);
        let stats = nodes[cur].expansion->Some_0.stats;
        assert(node_consistent::<D, S>(nodes[cur]));
        lemma_count_le_sum(stats, a);
        lemma_sum_counts_counted(stats, a, own);
        assert(node_consistent::<D, S>(node));
        assert forall|k: int| 0 <= k < after.len() implies #[trigger] node_consistent::<D, S>(
            after[k],
        ) by {
            if k != cur {
                assert(node_consistent::<D, S>(below.0[k]));
            }
        }
        assert forall|k: int, j: int|
            0 <= k < after.len() && after[k].expansion is Some && 0 <= j
                < after[k].expansion->Some_0.children.len() implies #[trigger] child_linked::<
            D,
            S,
        >(after, k, j) by {
            if k == cur {
                assert(child_linked::<D, S>(nodes, k, j));
                let c = nodes[k].expansion->Some_0.children[j].0 as int;
                assert(after[c] == below.0[c]);
                assert(below.0[c].state == nodes[c].state);
            } else {
                assert(child_linked::<D, S>(below.0, k, j));
                let c = below.0[k].expansion->Some_0.children[j].0 as int;
                if c == cur {
                    assert(below.0[c].state == nodes[c].state);
                }
            }
        }
        assert forall|k: int| 0 <= k < nodes.len() implies {
            let node_after = #[trigger] simulated_once::<D, S>(nodes, cur).0[k];
            &&& node_after.state == nodes[k].state
            &&& node_after.reward == nodes[k].reward
            &&& node_after.expansion is Some <==> nodes[k].expansion is Some
            &&& node_after.expansion is Some ==> node_after.expansion->Some_0.children
                == nodes[k].expansion->Some_0.children
            &&& nodes[k].visit_count <= node_after.visit_count <= nodes[k].visit_count + 1
        } by {
            if k != cur {
                assert(after[k] == below.0[k]);
            }
        }
    }
}

/// What `count` simulations change and what they keep: the arena stays
/// well-formed and keeps its length, every node keeps its state, its reward
/// and its children, and no node is visited more than `count` times more.
pub proof fn lemma_simulated<const D: usize, S: State<D>>(
    nodes: Seq<NodeView<S::V>>,
    cur: int,
    count: nat,
)
    requires
        arena_wf::<D, S>(nodes),
        0 <= cur < nodes.len(),
        forall|k: int|
            0 <= k < nodes.len() ==> (#[trigger] nodes[k]).visit_count + count <= usize::MAX,
    ensures
        arena_wf::<D, S>(simulated::<D, S>(nodes, cur, count)),
        simulated::<D, S>(nodes, cur, count).len() == nodes.len(),
        forall|k: int|
            0 <= k < nodes.len() ==> {
                let after = #[trigger] simulated::<D, S>(nodes, cur, count)[k];
                &&& after.state == nodes[k].state
                &&& after.reward == nodes[k].reward
                &&& after.expansion is Some <==> nodes[k].expansion is Some
                &&& after.expansion is Some ==> after.expansion->Some_0.children
                    == nodes[k].expansion->Some_0.children
                &&& nodes[k].visit_count <= after.visit_count <= nodes[k].visit_count + count
            },
        forall|k: int| 0 <= k < cur ==> simulated::<D, S>(nodes, cur, count)[k] == nodes[k],
    decreases count,
{
    if count > 0 {
        let before = simulated::<D, S>(nodes, cur, (count - 1) as nat);
        lemma_simulated::<D, S>(nodes, cur, (count - 1) as nat);
        assert forall|k: int| 0 <= k < before.len() implies (#[trigger] before[k]).visit_count
            < usize::MAX by {
            assert(before[k] == simulated::<D, S>(nodes, cur, (count - 1) as nat)[k]);
        }
        lemma_simulated_once::<D, S>(before, cur);
        let last = simulated_once::<D, S>(before, cur).0;
        assert forall|k: int| 0 <= k < nodes.len() implies {
            let after = #[trigger] simulated::<D, S>(nodes, cur, count)[k];
            &&& after.state == nodes[k].state
            &&& after.reward == nodes[k].reward
            &&& after.expansion is Some <==> nodes[k].expansion is Some
            &&& after.expansion is Some ==> after.expansion->Some_0.children
                == nodes[k].expansion->Some_0.children
            &&& nodes[k].visit_count <= after.visit_count <= nodes[k].visit_count + count
        } by {
            assert(last[k] == simulated_once::<D, S>(before, cur).0[k]);
            assert(before[k] == simulated::<D, S>(nodes, cur, (count - 1) as nat)[k]);
        }
    }
}

/// After `count` simulations from a node that has been visited and is not
/// terminal, the counts of the node's actions add up to `count` more than
/// before, and so do the visits of the node: each simulation counts exactly
/// one of its actions. From any other node, simulations change nothing.
pub proof fn lemma_simulated_counts<const D: usize, S: State<D>>(
    nodes: Seq<NodeView<S::V>>,
    cur: int,
    count: nat,
)
    requires
        arena_wf::<D, S>(nodes),
        0 <= cur < nodes.len(),
        forall|k: int|
            0 <= k < nodes.len() ==> (#[trigger] nodes[k]).visit_count + count <= usize::MAX,
    ensures
        descends(nodes[cur]) ==> action_visits(simulated::<D, S>(nodes, cur, count)[cur])
            == action_visits(nodes[cur]) + count,
        descends(nodes[cur]) ==> simulated::<D, S>(nodes, cur, count)[cur].visit_count
            == nodes[cur].visit_count + count,
        !descends(nodes[cur]) ==> simulated::<D, S>(nodes, cur, count) == nodes,
    decreases count,
{
    if count > 0 {
        let before = simulated::<D, S>(nodes, cur, (count - 1) as nat);
        lemma_simulated::<D, S>(nodes, cur, (count - 1) as nat);
        lemma_simulated_counts::<D, S>(nodes, cur, (count - 1) as nat);
        assert forall|k: int| 0 <= k < before.len() implies (#[trigger] before[k]).visit_count
            < usize::MAX by {
            assert(before[k] == simulated::<D, S>(nodes, cur, (count - 1) as nat)[k]);
        }
        lemma_simulated_once::<D, S>(before, cur);
        assert(before[cur] == simulated::<D, S>(nodes, cur, (count - 1) as nat)[cur]);
        if descends(nodes[cur]) {
            assert(descends(before[cur]));
            assert(node_consistent::<D, S>(before[cur]));
            let after = simulated_once::<D, S>(before, cur).0;
            assert(arena_wf::<D, S>(after));
            assert(node_consistent::<D, S>(after[cur]));
        }
    }
}

/// `sampled_from` picks a position from `from` on; the weights up to it reach
/// the draw unless it is the last; and the weights up to no position between
/// `from` and it reach the draw.
pub proof fn lemma_sampled_from(weights: Seq<Value>, draw: int, from: int)
    requires
        0 <= from < weights.len(),
    ensures
        from <= sampled_from(weights, draw, from) < weights.len(),
        sampled_from(weights, draw, from) == weights.len() - 1 || cumulative(
            weights,
            sampled_from(weights, draw, from) + 1,
        ) >= draw,
        forall|a: int|
            from <= a < sampled_from(weights, draw, from) ==> #[trigger] cumulative(
                weights,
                a + 1,
            ) < draw,
    decreases weights.len() - from,
{
    if from + 1 < weights.len() && cumulative(weights, from + 1) < draw {
        lemma_sampled_from(weights, draw, from + 1);
    }
}

/// With all actions tied, none of them counted and all of the same prior, an
/// expanded node selects its first action.
pub proof fn lemma_selection_of_ties<V>(node: NodeView<V>, explore_factor: int)
    requires
        node.expansion is Some,
        forall|a: int|
            0 <= a < node.expansion->Some_0.stats.len() ==> (
            #[trigger] node.expansion->Some_0.stats[a]).count == 0,
        forall|a: int, b: int|
            0 <= a < node.expansion->Some_0.stats.len() && 0 <= b
                < node.expansion->Some_0.stats.len() ==> (
            #[trigger] node.expansion->Some_0.stats[a]).prior == (
            #[trigger] node.expansion->Some_0.stats[b]).prior,
    ensures
        selection(node, explore_factor).0 == Action(0),
{
    let stats = node.expansion->Some_0.stats;
    let all = scores(stats, node.visit_count, explore_factor);
    assert forall|a: int, b: int| 0 <= a < all.len() && 0 <= b < all.len() implies #[trigger] all[a]
        == #[trigger] all[b] by {
        assert(stats[a].count == 0 && stats[b].count == 0);
        assert(stats[a].prior == stats[b].prior);
    }
    lemma_first_max_of_ties(all);
}

/// No action has been counted more often than the largest count says, and
/// where there is an action, one has been counted that often.
pub proof fn lemma_largest_count(stats: Seq<Stats>, upto: int)
    requires
        0 <= upto <= stats.len(),
    ensures
        forall|a: int| 0 <= a < upto ==> (#[trigger] stats[a]).count <= largest_count(stats, upto),
        upto > 0 ==> exists|a: int|
            0 <= a < upto && (#[trigger] stats[a]).count == largest_count(stats, upto),
    decreases upto,
{
    if upto > 0 {
        lemma_largest_count(stats, upto - 1);
        if upto > 1 && stats[upto - 1].count <= largest_count(stats, upto - 1) {
            let a = choose|a: int|
                0 <= a < upto - 1 && (#[trigger] stats[a]).count == largest_count(
                    stats,
                    upto - 1,
                );
            assert(stats[a].count == largest_count(stats, upto));
        } else {
            assert(stats[upto - 1].count == largest_count(stats, upto));
        }
    }
}

/// A weight lies from 0 to the weight of the largest count, grows with the
/// count of the action, and is 0 for an action never counted unless the
/// inverse of the temperature is 0; an action with the largest count has the
/// top weight, unless that count is 0.
pub proof fn lemma_weight(first: Stats, second: Stats, largest: nat, temperature: Temperature)
    requires
        first.count <= second.count <= largest,
    ensures
        0 <= weight_spec(first, largest, temperature) <= weight_spec(
            second,
            largest,
            temperature,
        ) <= top_weight(largest, temperature),
        second.count == largest && largest > 0 ==> weight_spec(second, largest, temperature)
            == top_weight(largest, temperature),
        first.count == 0 && temperature.inverse > 0 ==> weight_spec(first, largest, temperature)
            == 0,
{
    if !is_one(temperature) {
        if largest > 0 {
            lemma_fine_ratio(first.count as nat, second.count as nat, largest);
            lemma_fine_ratio(second.count as nat, largest, largest);
            lemma_fine_ratio(0, first.count as nat, largest);
        }
        let low = fine_ratio(first.count as nat, largest);
        let high = fine_ratio(second.count as nat, largest);
        if temperature.root > 1 {
            lemma_fine_root(low, high, temperature.root as nat);
            lemma_fine_pow(
                fine_root(low, temperature.root as nat),
                fine_root(high, temperature.root as nat),
                temperature.inverse as nat,
            );
        } else {
            lemma_fine_pow(low, high, temperature.inverse as nat);
        }
    }
}

/// Numbers that are not negative add up to no less than any one of them and
/// to no less than fewer of them.
pub proof fn lemma_total(numbers: Seq<int>, from: int, upto: int)
    requires
        0 <= from <= upto <= numbers.len(),
        forall|a: int| 0 <= a < numbers.len() ==> #[trigger] numbers[a] >= 0,
    ensures
        0 <= total(numbers, from) <= total(numbers, upto),
        from < upto ==> numbers[from] <= total(numbers, upto),
    decreases upto,
{
    if from < upto {
        lemma_total(numbers, from, upto - 1);
    } else if from > 0 {
        lemma_total(numbers, from - 1, from - 1);
    }
    if upto > 0 && from == upto {
        lemma_total(numbers, 0, from - 1);
        assert(numbers[from - 1] >= 0);
    }
}

/// What the weights of a state are: each from 0 to the top weight, adding up
/// to at least that where an action has been counted.
pub proof fn lemma_weights(stats: Seq<Stats>, temperature: Temperature)
    ensures
        forall|a: int|
            0 <= a < stats.len() ==> 0 <= #[trigger] weights(stats, temperature)[a] <= top_weight(
                largest_count(stats, stats.len() as int),
                temperature,
            ),
        0 <= total(weights(stats, temperature), stats.len() as int),
        largest_count(stats, stats.len() as int) > 0 ==> total(
            weights(stats, temperature),
            stats.len() as int,
        ) >= top_weight(largest_count(stats, stats.len() as int), temperature) > 0,
{
    let all = weights(stats, temperature);
    let largest = largest_count(stats, stats.len() as int);
    lemma_largest_count(stats, stats.len() as int);
    assert forall|a: int| 0 <= a < stats.len() implies 0 <= #[trigger] all[a] <= top_weight(
        largest,
        temperature,
    ) by {
        lemma_weight(stats[a], stats[a], largest, temperature);
    }
    lemma_total(all, 0, stats.len() as int);
    if largest > 0 {
        let m = choose|m: int| 0 <= m < stats.len() && (#[trigger] stats[m]).count == largest;
        lemma_weight(stats[m], stats[m], largest, temperature);
        lemma_total(all, m, stats.len() as int);
    }
}

/// The probabilities of the first `upto` actions add up to the share of
/// their weights in all weights, give or take half a millionth for each
/// action.
proof fn lemma_probabilities_partial(stats: Seq<Stats>, temperature: Temperature, upto: int)
    requires
        0 <= upto <= stats.len(),
        total(weights(stats, temperature), stats.len() as int) > 0,
    ensures
        ({
            let all = weights(stats, temperature);
            let sum = total(all, stats.len() as int);
            let given = total(micros_of(probabilities(stats, temperature)), upto);
            &&& 2 * given * sum <= 2 * SCALE * total(all, upto) + upto * sum
            &&& 2 * SCALE * total(all, upto) <= 2 * given * sum + upto * sum
        }),
    decreases upto,
{
    if upto > 0 {
        lemma_probabilities_partial(stats, temperature, upto - 1);
        lemma_weights(stats, temperature);
        let all = weights(stats, temperature);
        let sum = total(all, stats.len() as int);
        let pi = micros_of(probabilities(stats, temperature));
        let w = all[upto - 1];
        let p = pi[upto - 1];
        assert(p == probabilities(stats, temperature)[upto - 1]@);
        lemma_total(all, upto - 1, stats.len() as int);
        lemma_round_div(w * SCALE, sum);
        lemma_probability(w, w, sum);
        assert(p == round_div(w * SCALE, sum));
        let before = total(pi, upto - 1);
        let weighed = total(all, upto - 1);
        assert(2 * (before + p) * sum == 2 * before * sum + 2 * p * sum) by (nonlinear_arith);
        assert(2 * SCALE * (weighed + w) == 2 * SCALE * weighed + 2 * (w * SCALE))
            by (nonlinear_arith);
        assert(upto * sum == (upto - 1) * sum + sum) by (nonlinear_arith);
    }
}

/// A quotient rounded to the nearest whole number is no more than half away
/// from the quotient.
pub proof fn lemma_round_div(x: int, d: int)
    requires
        d > 0,
    ensures
        2 * round_div(x, d) * d <= 2 * x + d,
        2 * x < 2 * round_div(x, d) * d + d,
{
    vstd::arithmetic::div_mod::lemma_fundamental_div_mod(2 * x + d, 2 * d);
    let q = (2 * x + d) / (2 * d);
    let r = (2 * x + d) % (2 * d);
    vstd::arithmetic::div_mod::lemma_mod_bound(2 * x + d, 2 * d);
    assert(2 * q * d == (2 * d) * q) by (nonlinear_arith);
}

/// The probability of a weight lies from 0 to 1 where the weight lies from 0
/// to the sum, grows with the weight, and is 0 for the weight 0.
pub proof fn lemma_probability(v: int, w: int, sum: int)
    requires
        0 <= v <= w <= sum,
    ensures
        0 <= probability_spec(v, sum) <= probability_spec(w, sum) <= SCALE,
        probability_spec(0, sum) == 0,
{
    if sum > 0 {
        let s = SCALE as int;
        assert(0 <= (2 * (v * s) + sum) / (2 * sum) <= (2 * (w * s) + sum) / (2 * sum) <= s)
            by (nonlinear_arith)
            requires
                0 <= v <= w <= sum,
                sum > 0,
                s == 1_000_000,
        ;
        assert((2 * (0 * s) + sum) / (2 * sum) == 0) by (nonlinear_arith)
            requires
                sum > 0,
        ;
    }
}

/// What the probabilities of a state are.
///
/// Each lies from 0 to 1. An action counted at least as often as another is
/// at least as probable, and an action never counted has the probability 0,
/// unless the inverse of the temperature is 0. Where an action has been
/// counted, the probabilities add up to 1, give or take half a millionth for
/// each action. At the temperature 1 a probability is the count divided by
/// the sum of the counts, rounded to the nearest millionth.
pub proof fn lemma_probabilities(stats: Seq<Stats>, temperature: Temperature)
    ensures
        forall|a: int|
            0 <= a < stats.len() ==> 0 <= (#[trigger] probabilities(stats, temperature)[a])@
                <= SCALE,
        forall|a: int, b: int|
            0 <= a < stats.len() && 0 <= b < stats.len() && stats[a].count >= stats[b].count
                ==> (#[trigger] probabilities(stats, temperature)[a])@ >= (
            #[trigger] probabilities(stats, temperature)[b])@,
        largest_count(stats, stats.len() as int) > 0 ==> 2 * SCALE - stats.len() <= 2 * total(
            micros_of(probabilities(stats, temperature)),
            stats.len() as int,
        ) <= 2 * SCALE + stats.len(),
        temperature.inverse > 0 ==> forall|a: int|
            0 <= a < stats.len() && stats[a].count == 0 ==> (#[trigger] probabilities(
                stats,
                temperature,
            )[a])@ == 0,
        is_one(temperature) ==> forall|a: int|
            0 <= a < stats.len() ==> (#[trigger] probabilities(stats, temperature)[a])@
                == probability_spec(stats[a].count as int, sum_counts(stats) as int),
        total(micros_of(probabilities(stats, temperature)), stats.len() as int) <= i64::MAX
            ==> cumulative(probabilities(stats, temperature), stats.len() as int) == total(
            micros_of(probabilities(stats, temperature)),
            stats.len() as int,
        ),
{
    let all = weights(stats, temperature);
    let n = stats.len() as int;
    let sum = total(all, n);
    let largest = largest_count(stats, n);
    let pi = probabilities(stats, temperature);
    lemma_weights(stats, temperature);
    lemma_largest_count(stats, n);
    assert forall|a: int| 0 <= a < n implies 0 <= (#[trigger] pi[a])@ <= SCALE by {
        lemma_total(all, a, n);
        lemma_probability(all[a], all[a], sum);
    }
    assert forall|a: int, b: int|
        0 <= a < n && 0 <= b < n && stats[a].count >= stats[b].count implies (#[trigger] pi[a])@
        >= (#[trigger] pi[b])@ by {
        lemma_weight(stats[b], stats[a], largest, temperature);
        lemma_total(all, a, n);
        lemma_probability(all[b], all[a], sum);
    }
    if sum > 0 {
        lemma_probabilities_partial(stats, temperature, n);
        let given = total(micros_of(pi), n);
        assert(2 * SCALE - n <= 2 * given <= 2 * SCALE + n) by (nonlinear_arith)
            requires
                2 * given * sum <= 2 * SCALE * sum + n * sum,
                2 * SCALE * sum <= 2 * given * sum + n * sum,
                sum > 0,
        ;
    }
    if temperature.inverse > 0 {
        assert forall|a: int| 0 <= a < n && stats[a].count == 0 implies (#[trigger] pi[a])@
            == 0 by {
            lemma_weight(stats[a], stats[a], largest, temperature);
            lemma_probability(0, 0, sum);
        }
    }
    if is_one(temperature) {
        lemma_total_of_counts(stats, n);
        assert(stats.take(n) == stats);
        assert(all =~= Seq::new(stats.len(), |a: int| stats[a].count as int));
        assert forall|a: int| 0 <= a < n implies (#[trigger] pi[a])@ == probability_spec(
            stats[a].count as int,
            sum_counts(stats) as int,
        ) by {
            lemma_total(all, a, n);
            lemma_probability(all[a], all[a], sum);
        }
    }
    assert forall|a: int| 0 <= a < pi.len() implies 0 <= (#[trigger] pi[a])@ by {}
    lemma_cumulative_is_total(pi, n);
}

/// The counts of the first `upto` actions add up to their sum.
pub proof fn lemma_total_of_counts(stats: Seq<Stats>, upto: int)
    requires
        0 <= upto <= stats.len(),
    ensures
        total(Seq::new(stats.len(), |a: int| stats[a].count as int), upto) == sum_counts(
            stats.take(upto),
        ),
    decreases upto,
{
    if upto > 0 {
        lemma_total_of_counts(stats, upto - 1);
        assert(stats.take(upto).drop_last() == stats.take(upto - 1));
    }
}

/// Values from 0 to 1 that add up to no more than the largest number add up
/// without loss: their running sum is their sum.
pub proof fn lemma_cumulative_is_total(values: Seq<Value>, upto: int)
    requires
        0 <= upto <= values.len(),
        forall|a: int| 0 <= a < values.len() ==> 0 <= (#[trigger] values[a])@,
    ensures
        0 <= cumulative(values, upto),
        total(micros_of(values), upto) <= i64::MAX ==> cumulative(values, upto) == total(
            micros_of(values),
            upto,
        ),
    decreases upto,
{
    if upto > 0 {
        lemma_cumulative_is_total(values, upto - 1);
        assert(micros_of(values)[upto - 1] == values[upto - 1]@);
        let numbers = micros_of(values);
        assert forall|a: int| 0 <= a < numbers.len() implies #[trigger] numbers[a] >= 0 by {
            assert(numbers[a] == values[a]@);
        }
        lemma_total(numbers, upto - 1, upto);
    }
}

/// The running sum of values that are not negative does not fall.
pub proof fn lemma_cumulative_monotonic(values: Seq<Value>, from: int, upto: int)
    requires
        0 <= from <= upto <= values.len(),
        forall|a: int| 0 <= a < values.len() ==> 0 <= (#[trigger] values[a])@,
    ensures
        0 <= cumulative(values, from) <= cumulative(values, upto),
    decreases upto - from,
{
    lemma_cumulative_is_total(values, from);
    if from < upto {
        lemma_cumulative_monotonic(values, from, upto - 1);
    }
}

/// A draw above the running sum before a position and up to the running sum
/// with it samples that position, where no weight is negative.
pub proof fn lemma_sampled_in_interval(values: Seq<Value>, draw: int, m: int)
    requires
        0 <= m < values.len(),
        forall|a: int| 0 <= a < values.len() ==> 0 <= (#[trigger] values[a])@,
        cumulative(values, m) < draw <= cumulative(values, m + 1),
    ensures
        sampled(values, draw) == m,
{
    lemma_sampled_from(values, draw, 0);
    let s = sampled(values, draw);
    if s < m {
        lemma_cumulative_monotonic(values, s + 1, m);
    } else if s > m {
        assert(cumulative(values, m + 1) < draw);
    }
}

/// Sampling prefers the action counted most: no action is more probable, and
/// every draw above the probabilities of the actions before it and up to
/// those with it samples it.
pub proof fn lemma_sampling_takes_the_most_counted(
    stats: Seq<Stats>,
    temperature: Temperature,
    draw: Value,
    m: int,
)
    requires
        0 <= m < stats.len(),
        forall|b: int| 0 <= b < stats.len() ==> (#[trigger] stats[b]).count <= stats[m].count,
        cumulative(probabilities(stats, temperature), m) < draw@ <= cumulative(
            probabilities(stats, temperature),
            m + 1,
        ),
    ensures
        sampled(probabilities(stats, temperature), draw@) == m,
        forall|b: int|
            0 <= b < stats.len() ==> (#[trigger] probabilities(stats, temperature)[b])@
                <= probabilities(stats, temperature)[m]@,
{
    let pi = probabilities(stats, temperature);
    lemma_probabilities(stats, temperature);
    lemma_sampled_in_interval(pi, draw@, m);
    assert forall|b: int| 0 <= b < stats.len() implies (#[trigger] pi[b])@ <= pi[m]@ by {
        assert(stats[b].count <= stats[m].count);
    }
}

/// Numbers of which all but one are at most `bound` add up to no more than
/// that one and `bound` for each of the others.
pub proof fn lemma_total_but_one(numbers: Seq<int>, m: int, bound: int, upto: int)
    requires
        0 <= m < numbers.len(),
        0 <= upto <= numbers.len(),
        bound >= 0,
        forall|a: int| 0 <= a < numbers.len() && a != m ==> #[trigger] numbers[a] <= bound,
    ensures
        m < upto ==> total(numbers, upto) <= numbers[m] + (upto - 1) * bound,
        m >= upto ==> total(numbers, upto) <= upto * bound,
    decreases upto,
{
    if upto > 0 {
        lemma_total_but_one(numbers, m, bound, upto - 1);
        if upto - 1 != m {
            assert(numbers[upto - 1] <= bound);
        }
        assert(upto * bound == (upto - 1) * bound + bound) by (nonlinear_arith);
        assert((upto - 1) * bound == (upto - 2) * bound + bound) by (nonlinear_arith);
    }
}

/// At a low temperature sampling takes the action counted most, nearly
/// always.
///
/// Where one action has been counted more often than every other, it has
/// the top weight, and every other weighs no more than an action counted
/// once less would, which is ever less of the top weight as the temperature
/// falls. So the weights add up to little more than the top weight, and the
/// probability of the action counted most, the top weight divided by that
/// sum, is nearly 1.
pub proof fn lemma_sampling_concentrates(stats: Seq<Stats>, temperature: Temperature, m: int)
    requires
        0 <= m < stats.len(),
        stats[m].count > 0,
        forall|b: int|
            0 <= b < stats.len() && b != m ==> (#[trigger] stats[b]).count < stats[m].count,
    ensures
        ({
            let next = Stats { count: (stats[m].count - 1) as usize, ..stats[m] };
            let bound = weight_spec(next, stats[m].count as nat, temperature);
            let top = top_weight(stats[m].count as nat, temperature);
            let sum = total(weights(stats, temperature), stats.len() as int);
            &&& 0 <= bound <= top
            &&& weights(stats, temperature)[m] == top
            &&& forall|b: int|
                0 <= b < stats.len() && b != m ==> 0 <= #[trigger] weights(stats, temperature)[b]
                    <= bound
            &&& top <= sum <= top + (stats.len() - 1) * bound
            &&& probabilities(stats, temperature)[m]@ == round_div(top * SCALE, sum)
        }),
{
    let all = weights(stats, temperature);
    let n = stats.len() as int;
    lemma_largest_count(stats, n);
    let largest = largest_count(stats, n);
    let top = choose|a: int| 0 <= a < n && (#[trigger] stats[a]).count == largest;
    assert(stats[m].count <= largest);
    if top != m {
        assert(stats[top].count < stats[m].count);
    }
    assert(largest == stats[m].count);
    lemma_weights(stats, temperature);
    lemma_probabilities(stats, temperature);
    let next = Stats { count: (stats[m].count - 1) as usize, ..stats[m] };
    let bound = weight_spec(next, largest, temperature);
    lemma_weight(next, stats[m], largest, temperature);
    assert(all[m] == top_weight(largest, temperature));
    assert forall|b: int| 0 <= b < n && b != m implies 0 <= #[trigger] all[b] <= bound by {
        assert(stats[b].count < stats[m].count);
        lemma_weight(stats[b], next, largest, temperature);
    }
    lemma_total_but_one(all, m, bound, n);
    lemma_total(all, m, n);
    let sum = total(all, n);
    lemma_probability(all[m], all[m], sum);
    assert(probabilities(stats, temperature)[m]@ == probability_spec(all[m], sum));
}

/// The weights of the first `upto` actions, at a temperature whose inverse
/// is a whole number other than 1, add up to nearly what the powers of the
/// counts add up to, relative to the power of the largest count.
proof fn lemma_weights_are_close(stats: Seq<Stats>, temperature: Temperature, upto: int)
    requires
        0 <= upto <= stats.len(),
        temperature.root <= 1,
        !is_one(temperature),
        largest_count(stats, stats.len() as int) > 0,
    ensures
        ({
            let k = temperature.inverse as nat;
            let top = int_pow(largest_count(stats, stats.len() as int) as int, k);
            let weighed = total(weights(stats, temperature), upto);
            let powers = total(count_powers(stats, k), upto);
            &&& top > 0
            &&& 0 <= weighed * top <= powers * FINE
            &&& powers * FINE <= weighed * top + upto * (2 * k * top)
        }),
    decreases upto,
{
    let k = temperature.inverse as nat;
    let largest = largest_count(stats, stats.len() as int);
    let top = int_pow(largest as int, k);
    lemma_int_pow(largest as int, largest as int, k);
    if upto > 0 {
        lemma_weights_are_close(stats, temperature, upto - 1);
        lemma_largest_count(stats, stats.len() as int);
        let count = stats[upto - 1].count as nat;
        lemma_fine_pow_is_close(count, largest, k);
        let y = weights(stats, temperature)[upto - 1];
        let power = count_powers(stats, k)[upto - 1];
        let weighed = total(weights(stats, temperature), upto - 1);
        let powers = total(count_powers(stats, k), upto - 1);
        let f = FINE as int;
        assert((weighed + y) * top == weighed * top + y * top) by (nonlinear_arith);
        assert((powers + power) * f == powers * f + power * f) by (nonlinear_arith);
        assert(upto * (2 * k * top) == (upto - 1) * (2 * k * top) + 2 * k * top)
            by (nonlinear_arith);
        assert(0 <= y * top) by (nonlinear_arith)
            requires
                0 <= y,
                0 < top,
        ;
    } else {
        assert(0 * top == 0 && 0 * (FINE as int) == 0);
    }
}

/// How close the probabilities are to `N(s, a) ^ k / sum of N(s, b) ^ k`,
/// at a temperature `1 / k` with a whole number `k`.
///
/// Each is less than a millionth away, so one that is a whole number of
/// millionths comes out exact. This holds at the temperature 1 without
/// condition, where the probability is the count divided by the sum of the
/// counts, and else as long as `k` times the number of actions is below
/// `2^62 / 4,000,000`, more than a million millions.
pub proof fn lemma_probabilities_are_close(stats: Seq<Stats>, temperature: Temperature, a: int)
    requires
        0 <= a < stats.len(),
        temperature.root <= 1,
        largest_count(stats, stats.len() as int) > 0,
        is_one(temperature) || 4 * temperature.inverse * stats.len() * SCALE < FINE,
    ensures
        ({
            let powers = count_powers(stats, temperature.inverse as nat);
            let sum = total(powers, stats.len() as int);
            let p = probabilities(stats, temperature)[a]@;
            &&& is_within_a_millionth(p, powers[a], sum)
            &&& (SCALE * powers[a]) % sum == 0 ==> p == (SCALE * powers[a]) / sum
        }),
{
    let k = temperature.inverse as nat;
    let n = stats.len() as int;
    let largest = largest_count(stats, n);
    let all = weights(stats, temperature);
    let powers = count_powers(stats, k);
    let w = total(all, n);
    let sum = total(powers, n);
    let p = probabilities(stats, temperature)[a]@;
    let y = all[a];
    let power = powers[a];
    let s = SCALE as int;
    lemma_weights(stats, temperature);
    lemma_largest_count(stats, n);
    lemma_total(all, a, n);
    lemma_probability(y, y, w);
    assert(p == round_div(y * s, w));
    lemma_round_div(y * s, w);
    assert forall|b: int| 0 <= b < powers.len() implies #[trigger] powers[b] >= 0 by {
        lemma_int_pow(stats[b].count as int, stats[b].count as int, k);
    }
    lemma_total(powers, a, n);
    if is_one(temperature) {
        assert(all =~= powers) by {
            assert forall|b: int| 0 <= b < n implies all[b] == powers[b] by {
                assert(int_pow(stats[b].count as int, 1) == int_pow(stats[b].count as int, 0)
                    * stats[b].count);
            }
        }
        assert(w == sum && y == power);
        assert(2 * p * w == 2 * (p * sum) && y * s == s * power) by (nonlinear_arith)
            requires
                w == sum,
                y == power,
        ;
    } else {
        lemma_weights_are_close(stats, temperature, n);
        lemma_fine_pow_is_close(stats[a].count as nat, largest, k);
        let top = int_pow(largest as int, k);
        let f = FINE as int;
        let c = 2 * k * n;
        let e = power * f - y * top;
        let big_e = sum * f - w * top;
        let x = y * sum - power * w;
        assert(0 <= e <= 2 * k * top);
        assert(n * (2 * k * top) == c * top) by (nonlinear_arith)
            requires
                c == 2 * k * n,
        ;
        assert(0 <= big_e <= c * top);
        assert(2 * k * top <= c * top) by (nonlinear_arith)
            requires
                c == 2 * k * n,
                n >= 1,
                k >= 0,
                top > 0,
        ;
        assert(sum > 0) by (nonlinear_arith)
            requires
                w * top <= sum * f,
                w >= f,
                f > 0,
                top > 0,
        ;
        assert(top * x == power * big_e - e * sum) by (nonlinear_arith)
            requires
                e == power * f - y * top,
                big_e == sum * f - w * top,
                x == y * sum - power * w,
        ;
        assert(0 <= power * big_e <= (c * top) * sum) by (nonlinear_arith)
            requires
                0 <= power <= sum,
                0 <= big_e <= c * top,
        ;
        assert(0 <= e * sum <= (c * top) * sum) by (nonlinear_arith)
            requires
                0 <= e <= c * top,
                0 <= sum,
        ;
        assert(-(c * sum) <= x <= c * sum) by (nonlinear_arith)
            requires
                -((c * top) * sum) <= top * x <= (c * top) * sum,
                top > 0,
        ;
        let pw = p * w;
        let ys = y * s;
        let r = 2 * pw - 2 * ys;
        let z = p * sum - s * power;
        assert(2 * p * w == 2 * pw) by (nonlinear_arith)
            requires
                pw == p * w,
        ;
        assert(-w < r <= w);
        assert(r * sum == 2 * (pw * sum) - 2 * (ys * sum)) by (nonlinear_arith)
            requires
                r == 2 * pw - 2 * ys,
        ;
        assert(2 * s * x == 2 * (s * (y * sum)) - 2 * (s * (power * w))) by (nonlinear_arith)
            requires
                x == y * sum - power * w,
        ;
        assert(2 * w * z == 2 * (w * (p * sum)) - 2 * (w * (s * power))) by (nonlinear_arith)
            requires
                z == p * sum - s * power,
        ;
        assert(w * (p * sum) == pw * sum) by (nonlinear_arith)
            requires
                pw == p * w,
        ;
        assert(w * (s * power) == s * (power * w)) by (nonlinear_arith);
        assert(ys * sum == s * (y * sum)) by (nonlinear_arith)
            requires
                ys == y * s,
        ;
        assert(2 * w * z == r * sum + 2 * s * x);
        assert(-(w * sum) <= r * sum <= w * sum) by (nonlinear_arith)
            requires
                -w < r <= w,
                sum > 0,
        ;
        assert(-((2 * s * c) * sum) <= 2 * s * x <= (2 * s * c) * sum) by (nonlinear_arith)
            requires
                -(c * sum) <= x <= c * sum,
                s > 0,
        ;
        assert(2 * s * c < w) by (nonlinear_arith)
            requires
                4 * k * n * s < f,
                f <= w,
                c == 2 * k * n,
        ;
        assert((w + 2 * s * c) * sum == w * sum + (2 * s * c) * sum) by (nonlinear_arith);
        assert(-sum < z < sum) by (nonlinear_arith)
            requires
                -((w + 2 * s * c) * sum) <= 2 * w * z <= (w + 2 * s * c) * sum,
                2 * s * c < w,
                w > 0,
                sum > 0,
        ;
    }
    if (s * power) % sum == 0 {
        let m = (s * power) / sum;
        vstd::arithmetic::div_mod::lemma_fundamental_div_mod(s * power, sum);
        assert(p == m) by (nonlinear_arith)
            requires
                -sum < p * sum - s * power < sum,
                s * power == sum * m,
                sum > 0,
        ;
    }
}

} // verus!
