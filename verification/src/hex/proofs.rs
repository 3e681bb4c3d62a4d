//! What holds of the rules of Hex: the facts on neighbours, chains and empty
//! cells that the search for a winning chain and the game rest on.

use crate::hex::{BLUE_WINS, Cell, DRAW, Hex, Player, RED_WINS};
use crate::hex::rules::{
    adjacent, at_spec, avoids, board_ids, cell_id, connects, empty_cells, free_ids, held_among,
    holds, in_board, initial, is_chain, is_end_spec, is_full, is_game, is_square, is_start, linked,
    neighbours, optional, other_spec, put, reaches_end, reward_spec, Cells, HexView,
};
use crate::mcts::{EpisodeError, NodeRef, Temperature};
use crate::mcts::model::{arena_wf, episode, fresh_node, node_consistent, EpisodeView};
use crate::mcts::proofs::lemma_simulated_counts;
use crate::value::Value;
use vstd::prelude::*;

verus! {

/// A cell is among some cells followed by an optional one exactly if it is
/// among the first or is that one.
pub proof fn lemma_contains_optional(front: Seq<Cell>, present: bool, cell: Cell, other: Cell)
    ensures
        (front + optional(present, cell)).contains(other) <==> front.contains(other) || (present
            && cell == other),
{
    let all = front + optional(present, cell);
    if all.contains(other) {
        let k = choose|k: int| 0 <= k < all.len() && all[k] == other;
        if k < front.len() {
            assert(front[k] == other);
        }
    }
    if front.contains(other) {
        let k = choose|k: int| 0 <= k < front.len() && front[k] == other;
        assert(all[k] == other);
    }
    if present && cell == other {
        assert(all[front.len() as int] == other);
    }
}

/// The neighbours of a cell of the board are the cells of the board that are
/// adjacent to it.
pub proof fn lemma_neighbours(n: nat, cell: Cell, other: Cell)
    requires
        in_board(n, cell),
        n <= usize::MAX,
    ensures
        neighbours(n, cell).contains(other) <==> in_board(n, other) && adjacent(cell, other),
{
    let i = cell.0;
    let j = cell.1;
    let first = Seq::<Cell>::empty() + optional(
        i < n - 1 && j > 0,
        Cell((i + 1) as usize, (j - 1) as usize),
    );
    let second = first + optional(j > 0, Cell(i, (j - 1) as usize));
    let third = second + optional(i > 0, Cell((i - 1) as usize, j));
    let fourth = third + optional(i < n - 1, Cell((i + 1) as usize, j));
    let fifth = fourth + optional(i > 0 && j < n - 1, Cell((i - 1) as usize, (j + 1) as usize));
    let sixth = fifth + optional(j < n - 1, Cell(i, (j + 1) as usize));
    lemma_contains_optional(
        Seq::empty(),
        i < n - 1 && j > 0,
        Cell((i + 1) as usize, (j - 1) as usize),
        other,
    );
    lemma_contains_optional(first, j > 0, Cell(i, (j - 1) as usize), other);
    lemma_contains_optional(second, i > 0, Cell((i - 1) as usize, j), other);
    lemma_contains_optional(third, i < n - 1, Cell((i + 1) as usize, j), other);
    lemma_contains_optional(
        fourth,
        i > 0 && j < n - 1,
        Cell((i - 1) as usize, (j + 1) as usize),
        other,
    );
    lemma_contains_optional(fifth, j < n - 1, Cell(i, (j + 1) as usize), other);
    assert(first =~= optional(i < n - 1 && j > 0, Cell((i + 1) as usize, (j - 1) as usize)));
    assert(sixth == neighbours(n, cell));
    assert(!Seq::<Cell>::empty().contains(other));
}

/// The number of a cell is that of no other cell.
pub proof fn lemma_cell_id_injective(a: Cell, b: Cell)
    requires
        cell_id(a) == cell_id(b),
    ensures
        a == b,
{
    assert(cell_id(a) == a.0 * 0x1_0000_0000_0000_0000 + a.1);
    assert(cell_id(b) == b.0 * 0x1_0000_0000_0000_0000 + b.1);
}

/// The stones among some cells are those of the cells that hold one.
pub proof fn lemma_held_among(cells: Cells, player: Player, among: Seq<Cell>, cell: Cell)
    ensures
        held_among(cells, player, among).contains(cell) <==> among.contains(cell) && holds(
            cells,
            player,
            cell,
        ),
    decreases among.len(),
{
    let held = held_among(cells, player, among);
    if among.len() > 0 {
        let front = held_among(cells, player, among.drop_last());
        lemma_held_among(cells, player, among.drop_last(), cell);
        if held.contains(cell) {
            let k = choose|k: int| 0 <= k < held.len() && held[k] == cell;
            if k < front.len() {
                assert(front[k] == cell);
                assert(front.contains(cell));
                let t = choose|t: int|
                    0 <= t < among.drop_last().len() && among.drop_last()[t] == cell;
                assert(among[t] == cell);
            } else {
                assert(among[among.len() - 1] == cell);
            }
        }
        if among.contains(cell) && holds(cells, player, cell) {
            let t = choose|t: int| 0 <= t < among.len() && among[t] == cell;
            if t < among.len() - 1 {
                assert(among.drop_last()[t] == cell);
                assert(front.contains(cell));
                let k = choose|k: int| 0 <= k < front.len() && front[k] == cell;
                assert(held[k] == cell);
            } else {
                assert(held[held.len() - 1] == cell);
            }
        }
    }
}

/// A set of numbers of cells of a board of side `n` is finite and holds no
/// more than `n * 2^64` numbers.
pub proof fn lemma_seen_bound(seen: Set<u128>, n: nat)
    requires
        n <= usize::MAX,
        seen.subset_of(board_ids(n)),
    ensures
        seen.finite(),
        seen.len() <= n * 0x1_0000_0000_0000_0000,
{
    let bound = (n * 0x1_0000_0000_0000_0000) as u128;
    let all = Set::<u128>::range(0, bound);
    vstd::set_lib::range_set_properties::<u128>(0, bound);
    assert forall|id: u128| seen.contains(id) implies all.contains(id) by {
        assert(board_ids(n).contains(id));
        let cell = choose|cell: Cell| in_board(n, cell) && #[trigger] cell_id(cell) == id;
        assert(id == cell.0 * 0x1_0000_0000_0000_0000 + cell.1);
    }
    vstd::set_lib::lemma_len_subset(seen, all);
}

/// A chain that starts in a cell which is not the end of the chain goes on,
/// after the last time that it passes the cell, with a chain that starts in
/// a neighbour and never comes back to the cell.
pub proof fn lemma_chain_leaves(cells: Cells, player: Player, chain: Seq<Cell>, at: int) -> (next:
    int)
    requires
        is_chain(cells, player, chain),
        0 <= at < chain.len(),
        chain.last() != chain[0],
        chain[at] == chain[0],
    ensures
        at < next < chain.len(),
        chain[next - 1] == chain[0],
        forall|k: int| next <= k < chain.len() ==> #[trigger] chain[k] != chain[0],
    decreases chain.len() - at,
{
    if exists|k: int| at < k < chain.len() && #[trigger] chain[k] == chain[0] {
        let k = choose|k: int| at < k < chain.len() && #[trigger] chain[k] == chain[0];
        lemma_chain_leaves(cells, player, chain, k)
    } else {
        at + 1
    }
}

/// No chain leads on from a cell that is in `seen` or that holds no stone of
/// the player.
pub proof fn lemma_no_way_from(cells: Cells, player: Player, cell: Cell, seen: Set<u128>)
    requires
        seen.contains(cell_id(cell)) || !holds(cells, player, cell),
    ensures
        !reaches_end(cells, player, cell, seen),
{
    if reaches_end(cells, player, cell, seen) {
        let chain = choose|chain: Seq<Cell>|
            #![trigger is_chain(cells, player, chain)]
            is_chain(cells, player, chain) && chain[0] == cell && is_end_spec(
                player,
                cells.len(),
                chain.last(),
            ) && avoids(chain, seen);
        assert(holds(cells, player, chain[0]));
        assert(!seen.contains(cell_id(chain[0])));
    }
}

/// A stone on the edge to reach is a chain by itself.
pub proof fn lemma_way_at_end(cells: Cells, player: Player, cell: Cell, seen: Set<u128>)
    requires
        !seen.contains(cell_id(cell)),
        holds(cells, player, cell),
        is_end_spec(player, cells.len(), cell),
    ensures
        reaches_end(cells, player, cell, seen),
{
    let chain = seq![cell];
    assert(is_chain(cells, player, chain));
    assert(avoids(chain, seen));
}

/// A chain that leads on from a neighbour without the cell leads on from the
/// cell.
pub proof fn lemma_way_through(
    cells: Cells,
    player: Player,
    cell: Cell,
    next: Cell,
    seen: Set<u128>,
)
    requires
        !seen.contains(cell_id(cell)),
        holds(cells, player, cell),
        adjacent(cell, next),
        reaches_end(cells, player, next, seen.insert(cell_id(cell))),
    ensures
        reaches_end(cells, player, cell, seen),
{
    let below = seen.insert(cell_id(cell));
    let chain = choose|chain: Seq<Cell>|
        #![trigger is_chain(cells, player, chain)]
        is_chain(cells, player, chain) && chain[0] == next && is_end_spec(
            player,
            cells.len(),
            chain.last(),
        ) && avoids(chain, below);
    let longer = seq![cell] + chain;
    assert forall|t: int| 0 <= t < longer.len() implies holds(
        cells,
        player,
        #[trigger] longer[t],
    ) by {
        if t > 0 {
            assert(longer[t] == chain[t - 1]);
        }
    }
    assert forall|t: int| 0 <= t < longer.len() - 1 implies #[trigger] linked(longer, t) by {
        if t > 0 {
            assert(longer[t] == chain[t - 1]);
            assert(longer[t + 1] == chain[t]);
            assert(linked(chain, t - 1));
        } else {
            assert(longer[1] == chain[0]);
        }
    }
    assert forall|t: int| 0 <= t < longer.len() implies !seen.contains(
        cell_id(#[trigger] longer[t]),
    ) by {
        if t > 0 {
            assert(longer[t] == chain[t - 1]);
            assert(!below.contains(cell_id(chain[t - 1])));
        }
    }
    assert(longer.last() == chain.last());
    assert(is_chain(cells, player, longer));
}

/// Where no chain leads on from any neighbour without the cell, and the cell
/// is not on the edge to reach, no chain leads on from the cell.
pub proof fn lemma_no_way_through(
    cells: Cells,
    player: Player,
    n: nat,
    cell: Cell,
    seen: Set<u128>,
)
    requires
        n <= usize::MAX,
        is_square(cells, n),
        in_board(n, cell),
        !is_end_spec(player, n, cell),
        forall|next: Cell|
            in_board(n, next) && adjacent(cell, next) && holds(cells, player, next)
                ==> !#[trigger] reaches_end(cells, player, next, seen.insert(cell_id(cell))),
    ensures
        !reaches_end(cells, player, cell, seen),
{
    let below = seen.insert(cell_id(cell));
    if reaches_end(cells, player, cell, seen) {
        let chain = choose|chain: Seq<Cell>|
            #![trigger is_chain(cells, player, chain)]
            is_chain(cells, player, chain) && chain[0] == cell && is_end_spec(
                player,
                cells.len(),
                chain.last(),
            ) && avoids(chain, seen);
        let next = lemma_chain_leaves(cells, player, chain, 0);
        let rest = chain.skip(next);
        assert(linked(chain, next - 1));
        assert(holds(cells, player, chain[next]));
        assert forall|u: int| 0 <= u < rest.len() implies holds(
            cells,
            player,
            #[trigger] rest[u],
        ) by {
            assert(rest[u] == chain[next + u]);
        }
        assert forall|u: int| 0 <= u < rest.len() - 1 implies #[trigger] linked(rest, u) by {
            assert(rest[u] == chain[next + u]);
            assert(rest[u + 1] == chain[next + u + 1]);
            assert(linked(chain, next + u));
        }
        assert forall|u: int| 0 <= u < rest.len() implies !below.contains(
            cell_id(#[trigger] rest[u]),
        ) by {
            assert(rest[u] == chain[next + u]);
            assert(!seen.contains(cell_id(chain[next + u])));
            if cell_id(rest[u]) == cell_id(cell) {
                lemma_cell_id_injective(rest[u], cell);
            }
        }
        assert(rest.last() == chain.last());
        assert(rest[0] == chain[next]);
        assert(is_chain(cells, player, rest));
        assert(reaches_end(cells, player, chain[next], below));
    }
}

/// On an empty board nothing stands on any cell.
pub proof fn lemma_free_ids_of_empty(n: nat)
    ensures
        free_ids(empty_cells(n)) == board_ids(n),
{
    let cells = empty_cells(n);
    assert forall|id: u128| free_ids(cells).contains(id) <==> board_ids(n).contains(id) by {
        if board_ids(n).contains(id) {
            let cell = choose|cell: Cell| in_board(n, cell) && #[trigger] cell_id(cell) == id;
            assert(at_spec(cells, cell) is None);
        }
        if free_ids(cells).contains(id) {
            let cell = choose|cell: Cell|
                in_board(cells.len(), cell) && at_spec(cells, cell) is None && #[trigger] cell_id(
                    cell,
                ) == id;
            assert(in_board(n, cell));
        }
    }
    assert(free_ids(cells) =~= board_ids(n));
}

/// Putting a stone on a cell takes the cell from the empty ones; taking the
/// stone from it adds the cell to them.
pub proof fn lemma_free_ids_of_put(cells: Cells, n: nat, cell: Cell, content: Option<Player>)
    requires
        is_square(cells, n),
        in_board(n, cell),
    ensures
        is_square(put(cells, cell, content), n),
        at_spec(put(cells, cell, content), cell) == content,
        forall|other: Cell|
            in_board(n, other) && other != cell ==> #[trigger] at_spec(
                put(cells, cell, content),
                other,
            ) == at_spec(cells, other),
        content is Some ==> free_ids(put(cells, cell, content)) == free_ids(cells).remove(
            cell_id(cell),
        ),
        content is None ==> free_ids(put(cells, cell, content)) == free_ids(cells).insert(
            cell_id(cell),
        ),
{
    let after = put(cells, cell, content);
    assert forall|other: Cell| in_board(n, other) && other != cell implies #[trigger] at_spec(
        after,
        other,
    ) == at_spec(cells, other) by {}
    let expected = if content is Some {
        free_ids(cells).remove(cell_id(cell))
    } else {
        free_ids(cells).insert(cell_id(cell))
    };
    assert forall|id: u128| free_ids(after).contains(id) <==> expected.contains(id) by {
        if free_ids(after).contains(id) {
            let other = choose|other: Cell|
                in_board(after.len(), other) && at_spec(after, other) is None
                    && #[trigger] cell_id(other) == id;
            if other != cell {
                assert(at_spec(after, other) == at_spec(cells, other));
                assert(cell_id(other) == id);
                if cell_id(other) == cell_id(cell) {
                    lemma_cell_id_injective(other, cell);
                }
            }
        }
        if expected.contains(id) {
            if id == cell_id(cell) {
                assert(cell_id(cell) == id);
            } else {
                let other = choose|other: Cell|
                    in_board(cells.len(), other) && at_spec(cells, other) is None
                        && #[trigger] cell_id(other) == id;
                assert(at_spec(after, other) == at_spec(cells, other));
                assert(in_board(after.len(), other));
            }
        }
    }
    assert(free_ids(after) =~= expected);
}

/// Nothing stands on a full board's cells exactly if no cell is empty.
pub proof fn lemma_full(cells: Cells)
    ensures
        is_full(cells) <==> free_ids(cells) =~= Set::<u128>::empty(),
{
    if is_full(cells) {
        assert forall|id: u128| !free_ids(cells).contains(id) by {
            if free_ids(cells).contains(id) {
                let cell = choose|cell: Cell|
                    in_board(cells.len(), cell) && at_spec(cells, cell) is None
                        && #[trigger] cell_id(cell) == id;
                assert(at_spec(cells, cell) is Some);
            }
        }
    }
    if free_ids(cells) =~= Set::<u128>::empty() {
        assert forall|cell: Cell| in_board(cells.len(), cell) implies (#[trigger] at_spec(
            cells,
            cell,
        )) is Some by {
            if at_spec(cells, cell) is None {
                assert(cell_id(cell) == cell_id(cell));
                assert(free_ids(cells).contains(cell_id(cell)));
            }
        }
    }
}

/// Nobody's stones connect anything on an empty board.
pub proof fn lemma_empty_connects_nothing(n: nat, player: Player)
    ensures
        !connects(empty_cells(n), player),
{
    if connects(empty_cells(n), player) {
        let chain = choose|chain: Seq<Cell>|
            #![trigger is_chain(empty_cells(n), player, chain)]
            is_chain(empty_cells(n), player, chain) && is_start(player, chain[0]) && is_end_spec(
                player,
                empty_cells(n).len(),
                chain.last(),
            );
        assert(holds(empty_cells(n), player, chain[0]));
    }
}

/// A reward tells who has connected: in a game with the reward 1 a chain of
/// Red's stones connects Red's edges, with the reward -1 a chain of Blue's
/// stones Blue's; the winner is the player who moved last.
pub proof fn lemma_reward_tells_the_winner(game: HexView, n: nat)
    requires
        is_game(game, n),
    ensures
        reward_spec(game) == Some(Value { micros: RED_WINS }) ==> game.winner == Some(
            Player::Red,
        ) && game.next == Player::Blue && connects(game.cells, Player::Red),
        reward_spec(game) == Some(Value { micros: BLUE_WINS }) ==> game.winner == Some(
            Player::Blue,
        ) && game.next == Player::Red && connects(game.cells, Player::Blue),
        reward_spec(game) is None ==> !connects(game.cells, other_spec(game.next)),
{
}

/// Before the first move nothing stands on the board, Red is to move, nobody
/// has won, and the game is one on a board of side `n`. The game goes on,
/// unless the board has no cell at all: then it is drawn from the start.
pub proof fn lemma_initial(n: nat)
    requires
        n <= usize::MAX,
    ensures
        is_game(initial(n), n),
        forall|cell: Cell|
            in_board(n, cell) ==> (#[trigger] at_spec(initial(n).cells, cell)) is None,
        initial(n).next == Player::Red,
        initial(n).winner is None,
        n > 0 ==> reward_spec(initial(n)) is None,
        n == 0 ==> reward_spec(initial(n)) == Some(Value { micros: DRAW }),
{
    lemma_free_ids_of_empty(n);
    lemma_empty_connects_nothing(n, Player::Blue);
    if n > 0 {
        assert(at_spec(initial(n).cells, Cell(0, 0)) is None);
    }
}

/// An episode from the initial state of the game makes no move: actions are
/// the moves made before, and before the first move there is none.
pub proof fn lemma_episode_stalls<const N: usize>(
    sim_count: nat,
    temperature: Temperature,
    draws: Seq<Value>,
)
    requires
        sim_count <= usize::MAX,
        draws.len() > 0,
    ensures
        episode::<N, Hex<N>>(
            seq![fresh_node::<N, Hex<N>>(initial(N as nat))],
            NodeRef(0),
            sim_count,
            temperature,
            draws,
        ) == (EpisodeView::<HexView> {
            nodes: seq![fresh_node::<N, Hex<N>>(initial(N as nat))],
            moves: Seq::empty(),
            end: Err(EpisodeError::NoAction),
        }),
{
    let nodes = seq![fresh_node::<N, Hex<N>>(initial(N as nat))];
    lemma_initial(N as nat);
    assert(node_consistent::<N, Hex<N>>(nodes[0]));
    assert(arena_wf::<N, Hex<N>>(nodes));
    lemma_simulated_counts::<N, Hex<N>>(nodes, 0, sim_count);
}

} // verus!
