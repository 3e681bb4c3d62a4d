//! The rules of Hex as the contracts see them: boards as values, adjacency,
//! chains, and what a move makes of a game.

use crate::hex::{BLUE_WINS, Cell, DRAW, Player, RED_WINS};
use crate::value::{neg_spec, Value};
use vstd::prelude::*;

verus! {

/// The cells of a board, by column and row, as the contracts see them.
pub type Cells = Seq<Seq<Option<Player>>>;

/// Whether the cells are those of a board of side `n`.
pub open spec fn is_square(cells: Cells, n: nat) -> bool {
    &&& cells.len() == n
    &&& forall|i: int| 0 <= i < n ==> (#[trigger] cells[i]).len() == n
}

/// Whether a cell lies on a board of side `n`.
pub open spec fn in_board(n: nat, cell: Cell) -> bool {
    cell.0 < n && cell.1 < n
}

/// What stands on a cell.
pub open spec fn at_spec(cells: Cells, cell: Cell) -> Option<Player> {
    cells[cell.0 as int][cell.1 as int]
}

/// The cells with `content` put on `cell`.
pub open spec fn put(cells: Cells, cell: Cell, content: Option<Player>) -> Cells {
    cells.update(cell.0 as int, cells[cell.0 as int].update(cell.1 as int, content))
}

/// The board of side `n` with nothing on it.
pub open spec fn empty_cells(n: nat) -> Cells {
    Seq::new(n, |i: int| Seq::new(n, |j: int| None::<Player>))
}

/// Whether `player` has a stone on `cell`, a cell of the board.
pub open spec fn holds(cells: Cells, player: Player, cell: Cell) -> bool {
    in_board(cells.len(), cell) && at_spec(cells, cell) == Some(player)
}

/// Whether `b` is one of the six neighbours of `a` in the hexagonal grid:
/// `(i+1, j-1), (i, j-1), (i-1, j), (i+1, j), (i-1, j+1), (i, j+1)`.
pub open spec fn adjacent(a: Cell, b: Cell) -> bool {
    ||| b.0 == a.0 + 1 && b.1 + 1 == a.1
    ||| b.0 == a.0 && b.1 + 1 == a.1
    ||| b.0 + 1 == a.0 && b.1 == a.1
    ||| b.0 == a.0 + 1 && b.1 == a.1
    ||| b.0 + 1 == a.0 && b.1 == a.1 + 1
    ||| b.0 == a.0 && b.1 == a.1 + 1
}

/// The sequence of `cell` alone where `present` holds, and of nothing else.
pub open spec fn optional(present: bool, cell: Cell) -> Seq<Cell> {
    if present {
        seq![cell]
    } else {
        Seq::empty()
    }
}

/// The neighbours of a cell on a board of side `n`, in the order above.
pub open spec fn neighbours(n: nat, cell: Cell) -> Seq<Cell> {
    let i = cell.0;
    let j = cell.1;
    optional(i < n - 1 && j > 0, Cell((i + 1) as usize, (j - 1) as usize)) + optional(
        j > 0,
        Cell(i, (j - 1) as usize),
    ) + optional(i > 0, Cell((i - 1) as usize, j)) + optional(
        i < n - 1,
        Cell((i + 1) as usize, j),
    ) + optional(i > 0 && j < n - 1, Cell((i - 1) as usize, (j + 1) as usize)) + optional(
        j < n - 1,
        Cell(i, (j + 1) as usize),
    )
}

/// The other player.
pub open spec fn other_spec(player: Player) -> Player {
    match player {
        Player::Red => Player::Blue,
        Player::Blue => Player::Red,
    }
}

/// Whether a cell lies on the edge that the player starts from: the first row
/// for Red, the first column for Blue.
pub open spec fn is_start(player: Player, cell: Cell) -> bool {
    match player {
        Player::Red => cell.1 == 0,
        Player::Blue => cell.0 == 0,
    }
}

/// Whether a cell lies on the edge that the player has to reach: the last row
/// for Red, the last column for Blue.
pub open spec fn is_end_spec(player: Player, n: nat, cell: Cell) -> bool {
    match player {
        Player::Red => cell.1 == n - 1,
        Player::Blue => cell.0 == n - 1,
    }
}

/// Whether cell `k` of a chain is adjacent to the next.
pub open spec fn linked(chain: Seq<Cell>, k: int) -> bool {
    adjacent(chain[k], chain[k + 1])
}

/// Whether `chain` is a chain of stones of `player`: each cell holds one, and
/// each is adjacent to the next.
pub open spec fn is_chain(cells: Cells, player: Player, chain: Seq<Cell>) -> bool {
    &&& chain.len() > 0
    &&& forall|k: int| 0 <= k < chain.len() ==> holds(cells, player, #[trigger] chain[k])
    &&& forall|k: int| 0 <= k < chain.len() - 1 ==> #[trigger] linked(chain, k)
}

/// Whether `player` has won: a chain of the player's stones connects the
/// player's two edges.
pub open spec fn connects(cells: Cells, player: Player) -> bool {
    exists|chain: Seq<Cell>|
        #![trigger is_chain(cells, player, chain)]
        is_chain(cells, player, chain) && is_start(player, chain[0]) && is_end_spec(
            player,
            cells.len(),
            chain.last(),
        )
}

/// The number that stands for a cell in a set of cells.
pub open spec fn cell_id(cell: Cell) -> u128 {
    (cell.0 * 0x1_0000_0000_0000_0000 + cell.1) as u128
}

/// The numbers of the cells of a board of side `n` and of no others.
pub open spec fn board_ids(n: nat) -> Set<u128> {
    Set::new(|id: u128| exists|cell: Cell| in_board(n, cell) && #[trigger] cell_id(cell) == id)
}

/// The stones of `player` among the cells `among`, in their order.
pub open spec fn held_among(cells: Cells, player: Player, among: Seq<Cell>) -> Seq<Cell>
    decreases among.len(),
{
    if among.len() == 0 {
        Seq::empty()
    } else {
        let front = held_among(cells, player, among.drop_last());
        if holds(cells, player, among.last()) {
            front.push(among.last())
        } else {
            front
        }
    }
}

/// The cells of the edge that the player starts from, in order.
pub open spec fn start_cells(player: Player, n: nat) -> Seq<Cell> {
    Seq::new(
        n,
        |k: int|
            match player {
                Player::Red => Cell(k as usize, 0),
                Player::Blue => Cell(0, k as usize),
            },
    )
}

/// Whether no cell of the chain is in `seen`.
pub open spec fn avoids(chain: Seq<Cell>, seen: Set<u128>) -> bool {
    forall|k: int| 0 <= k < chain.len() ==> !seen.contains(cell_id(#[trigger] chain[k]))
}

/// Whether a chain of stones of `player` leads from `from` to the edge that
/// the player has to reach, without a cell that is in `seen`.
pub open spec fn reaches_end(cells: Cells, player: Player, from: Cell, seen: Set<u128>) -> bool {
    exists|chain: Seq<Cell>|
        #![trigger is_chain(cells, player, chain)]
        is_chain(cells, player, chain) && chain[0] == from && is_end_spec(
            player,
            cells.len(),
            chain.last(),
        ) && avoids(chain, seen)
}

/// The numbers of the cells of the board on which nothing stands.
pub open spec fn free_ids(cells: Cells) -> Set<u128> {
    Set::new(
        |id: u128|
            exists|cell: Cell|
                in_board(cells.len(), cell) && at_spec(cells, cell) is None && #[trigger] cell_id(
                    cell,
                ) == id,
    )
}

/// Whether a stone stands on every cell of the board.
pub open spec fn is_full(cells: Cells) -> bool {
    forall|cell: Cell| in_board(cells.len(), cell) ==> (#[trigger] at_spec(cells, cell)) is Some
}

/// The player who moves after `moves` moves: Red first, then in turn.
pub open spec fn mover(moves: nat) -> Player {
    if moves % 2 == 0 {
        Player::Red
    } else {
        Player::Blue
    }
}

/// The number that pictures what stands on a cell: 0 for nothing, 1 for a
/// stone of Red, -1 for a stone of Blue.
pub open spec fn code(content: Option<Player>) -> i32 {
    match content {
        None => 0i32,
        Some(Player::Red) => 1i32,
        Some(Player::Blue) => (-1) as i32,
    }
}

/// A game of Hex as the contracts see it.
pub ghost struct HexView {
    /// What stands on the board.
    pub cells: Cells,
    /// The numbers of the cells on which nothing stands.
    pub empty: Set<u128>,
    /// The cells taken, in the order of the moves.
    pub taken: Seq<Cell>,
    /// The player to move.
    pub next: Player,
    /// The player who made the last move, if that player has won with it.
    pub winner: Option<Player>,
}

/// The game on a board of side `n` before the first move.
pub open spec fn initial(n: nat) -> HexView {
    HexView {
        cells: empty_cells(n),
        empty: board_ids(n),
        taken: Seq::empty(),
        next: Player::Red,
        winner: None,
    }
}

/// The game after the player to move has taken `cell`: the player's stone
/// stands there, the move is recorded, the player has won if a chain of the
/// player's stones now connects the player's edges, and it is the other
/// player's turn.
pub open spec fn took(game: HexView, cell: Cell) -> HexView {
    let cells = put(game.cells, cell, Some(game.next));
    HexView {
        cells,
        empty: game.empty.remove(cell_id(cell)),
        taken: game.taken.push(cell),
        next: other_spec(game.next),
        winner: if connects(cells, game.next) {
            Some(game.next)
        } else {
            None
        },
    }
}

/// The winner of a game in which `next` is to move: the player who moved
/// last, if a chain of that player's stones connects the player's edges.
pub open spec fn winner_spec(cells: Cells, next: Player) -> Option<Player> {
    if connects(cells, other_spec(next)) {
        Some(other_spec(next))
    } else {
        None
    }
}

/// What holds of every game on a board of side `n`: the board is square, the
/// empty cells are those on which nothing stands, every cell taken lies on the
/// board, every stone stands on a cell that was taken, the players move in
/// turn, and the winner is the player who moved last, if that player's
/// stones connect the player's edges.
pub open spec fn is_game(game: HexView, n: nat) -> bool {
    &&& n <= usize::MAX
    &&& is_square(game.cells, n)
    &&& game.empty == free_ids(game.cells)
    &&& forall|k: int| 0 <= k < game.taken.len() ==> in_board(n, #[trigger] game.taken[k])
    &&& forall|cell: Cell|
        in_board(n, cell) && (#[trigger] at_spec(game.cells, cell)) is Some
            ==> game.taken.contains(cell)
    &&& game.next == mover(game.taken.len())
    &&& game.winner == winner_spec(game.cells, game.next)
}

/// Whether the game is drawn: nobody has won and every cell is taken.
pub open spec fn is_draw_spec(game: HexView) -> bool {
    game.winner is None && is_full(game.cells)
}

/// The reward of a game: 0.1 for a draw, 1 where Red has won, -1 where Blue
/// has won, none while the game goes on.
pub open spec fn reward_spec(game: HexView) -> Option<Value> {
    if is_draw_spec(game) {
        Some(Value { micros: DRAW })
    } else {
        match game.winner {
            Some(Player::Red) => Some(Value { micros: RED_WINS }),
            Some(Player::Blue) => Some(Value { micros: BLUE_WINS }),
            None => None,
        }
    }
}

/// The value of a position for the player who moved into it, given its value
/// for the other: the negation, but for the value of a draw, which is the
/// same for both.
pub open spec fn value_spec(value: Value) -> Value {
    if value.micros != DRAW {
        Value { micros: neg_spec(value@) as i64 }
    } else {
        value
    }
}

/// The picture of a board: the numbers of its cells, column by column.
pub open spec fn codes(cells: Cells) -> Seq<Seq<i32>> {
    Seq::new(cells.len(), |i: int| Seq::new(cells[i].len(), |j: int| code(cells[i][j])))
}

/// The character of column `i`: the letter `A` for the first, `Z` for the
/// 26th, and from there on the characters that follow the letters.
pub open spec fn letter(i: int) -> char {
    ((65 + i) as u8) as char
}

/// The character of row `j`: the digit `1` for the first, `9` for the ninth,
/// and from there on the characters that follow the digits.
pub open spec fn digit(j: int) -> char {
    ((49 + j) as u8) as char
}

/// The digit that stands for a number below 10.
pub open spec fn numeral(d: int) -> char {
    ((48 + d) as u8) as char
}

/// A number in decimal digits.
pub open spec fn number_text(n: nat) -> Seq<char>
    decreases n,
{
    if n < 10 {
        seq![numeral(n as int)]
    } else {
        number_text(n / 10) + seq![numeral((n % 10) as int)]
    }
}

/// The number of row `j`, the first row being number 1, with a blank behind
/// it where it has one digit only.
pub open spec fn row_label(j: int) -> Seq<char> {
    if j + 1 < 10 {
        number_text((j + 1) as nat) + seq![' ']
    } else {
        number_text((j + 1) as nat)
    }
}

/// The name of a cell: the letter of its column and the number of its row.
pub open spec fn cell_text(cell: Cell) -> Seq<char> {
    seq![letter(cell.0 as int)] + number_text((cell.1 + 1) as nat)
}

/// What stands on a cell, as text: `R`, `B`, or `_` for nothing.
pub open spec fn stone_text(content: Option<Player>) -> Seq<char> {
    match content {
        Some(Player::Red) => seq!['R'],
        Some(Player::Blue) => seq!['B'],
        None => seq!['_'],
    }
}

/// `count` blanks.
pub open spec fn blanks(count: nat) -> Seq<char> {
    Seq::new(count, |k: int| ' ')
}

/// The first line of a board of `n` columns: three blanks, then the letter
/// of each column with a blank behind it.
pub open spec fn header_text(n: nat) -> Seq<char>
    decreases n,
{
    if n == 0 {
        blanks(3)
    } else {
        header_text((n - 1) as nat) + seq![letter(n - 1), ' ']
    }
}

/// The stones of the first `upto` cells of row `j`, each with a blank before
/// it.
pub open spec fn stones_text(cells: Cells, j: int, upto: nat) -> Seq<char>
    decreases upto,
{
    if upto == 0 {
        Seq::empty()
    } else {
        stones_text(cells, j, (upto - 1) as nat) + seq![' '] + stone_text(cells[upto - 1][j])
    }
}

/// The line of row `j`: as many blanks as rows stand above it, its number,
/// and its stones.
pub open spec fn row_text(cells: Cells, j: int) -> Seq<char> {
    blanks(j as nat) + row_label(j) + stones_text(cells, j, cells.len())
}

/// The lines of the first `upto` rows, each after a line break.
pub open spec fn rows_text(cells: Cells, upto: nat) -> Seq<char>
    decreases upto,
{
    if upto == 0 {
        Seq::empty()
    } else {
        rows_text(cells, (upto - 1) as nat) + seq!['\n'] + row_text(cells, upto - 1)
    }
}

/// A board as text: the line of the column letters, then the line of each
/// row, each shifted by one blank against the row above.
pub open spec fn board_text(cells: Cells) -> Seq<char> {
    header_text(cells.len()) + rows_text(cells, cells.len())
}

/// How a game stands, as text.
pub open spec fn result_text(game: HexView) -> Seq<char> {
    match game.winner {
        Some(player) => stone_text(Some(player)) + ", wins"@,
        None => if is_draw_spec(game) {
            "draw"@
        } else {
            "mid game"@
        },
    }
}

/// A game as text: its board, and in a line of its own how it stands.
pub open spec fn game_text(game: HexView) -> Seq<char> {
    board_text(game.cells) + seq!['\n'] + result_text(game)
}

} // verus!
