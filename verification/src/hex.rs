//! The game of Hex on an N x N board: the board, the search for a winning
//! chain, and the game as an environment of the tree search.

use crate::env::{picture, Action, State};
use crate::hex::proofs::{
    lemma_cell_id_injective, lemma_empty_connects_nothing, lemma_free_ids_of_empty,
    lemma_free_ids_of_put, lemma_full, lemma_held_among, lemma_neighbours, lemma_no_way_from,
    lemma_no_way_through, lemma_seen_bound, lemma_way_at_end, lemma_way_through,
};
use crate::hex::rules::{
    adjacent, at_spec, avoids, blanks, board_ids, board_text, cell_id, cell_text, code, codes,
    connects, digit, empty_cells, free_ids, game_text, header_text, held_among, holds, in_board,
    initial, is_chain, is_draw_spec, is_end_spec, is_game, is_square, is_start, letter, mover,
    neighbours, number_text, other_spec, put, reaches_end, reward_spec, row_label, rows_text,
    start_cells, stone_text, stones_text, took, value_spec, Cells, HexView,
};
use crate::value::Value;
use std::collections::HashSet;
use vstd::prelude::*;

pub mod proofs;
pub mod rules;

verus! {

broadcast use vstd::std_specs::hash::group_hash_axioms;

/// The two players. Red moves first and connects the first row with the
/// last, Blue the first column with the last.
#[derive(Debug, Clone, Copy, PartialEq, Eq, Structural)]
pub enum Player {
    Red,
    Blue,
}

/// The first column. The columns go by letters, from `A` on.
pub const A: usize = 0;

pub const B: usize = 1;

pub const C: usize = 2;

pub const D: usize = 3;

pub const E: usize = 4;

pub const _F: usize = 5;

pub const _G: usize = 6;

pub const _H: usize = 7;

pub const _I: usize = 8;

pub const _J: usize = 9;

pub const _K: usize = 10;

pub const _L: usize = 11;

pub const _M: usize = 12;

pub const _N: usize = 13;

pub const _O: usize = 14;

pub const _P: usize = 15;

pub const _Q: usize = 16;

/// The character of column `i`: the letter `A` for the first.
pub fn i_char(i: usize) -> (c: char)
    requires
        i <= 190,
    ensures
        c == letter(i as int),
{
    (65u8 + i as u8) as char
}

/// The character of row `j`: the digit `1` for the first.
pub fn j_char(j: usize) -> (c: char)
    requires
        j <= 206,
    ensures
        c == digit(j as int),
{
    (49u8 + j as u8) as char
}

/// Puts a character at the end of a text.
///
/// Calls `String::push`. The contract claims what the function's
/// documentation says: the character is appended to the end of the string,
/// and nothing else of it changes.
#[verifier::external_body]
fn push_char(text: &mut String, c: char)
    ensures
        final(text)@ == old(text)@.push(c),
{
    text.push(c)
}

/// Puts a number in decimal digits at the end of a text.
fn push_number(text: &mut String, n: u128)
    ensures
        final(text)@ == old(text)@ + number_text(n as nat),
    decreases n,
{
    if n >= 10 {
        push_number(text, n / 10);
    }
    push_char(text, (48u8 + (n % 10) as u8) as char);
}

/// A cell of the board: its column and its row.
#[derive(Debug, Clone, Copy, Hash, PartialEq, Eq, PartialOrd, Ord, Structural)]
pub struct Cell(pub usize, pub usize);

impl Cell {
    pub fn new(at: (usize, usize)) -> (cell: Self)
        ensures
            cell == Cell(at.0, at.1),
    {
        Self(at.0, at.1)
    }

    /// The name of the cell: the letter of its column and the number of its
    /// row, the first row being number 1.
    pub fn to_string(&self) -> (text: String)
        requires
            self.0 <= 190,
        ensures
            text@ == cell_text(*self),
    {
        let mut text = String::new();
        push_char(&mut text, i_char(self.0));
        push_number(&mut text, self.1 as u128 + 1);
        assert(text@ =~= cell_text(*self));
        text
    }

    /// The number that stands for this cell in a set of cells.
    fn id(&self) -> (id: u128)
        ensures
            id == cell_id(*self),
    {
        (self.0 as u128) * 0x1_0000_0000_0000_0000u128 + (self.1 as u128)
    }
}

/// The cell in column `i` and in the row numbered `j_plus_one`, the first row
/// being number 1.
pub fn cell(i: usize, j_plus_one: usize) -> (cell: Cell)
    requires
        j_plus_one >= 1,
    ensures
        cell == Cell(i, (j_plus_one - 1) as usize),
{
    Cell::new((i, j_plus_one - 1))
}

/// A board of side `N`.
#[derive(Debug, Clone, Copy)]
pub struct Board<const N: usize>([[Option<Player>; N]; N]);

impl<const N: usize> View for Board<N> {
    type V = Cells;

    closed spec fn view(&self) -> Cells {
        Seq::new(N as nat, |i: int| self.0@[i]@)
    }
}

impl<const N: usize> Default for Board<N> {
    fn default() -> (board: Self)
        ensures
            board@ == empty_cells(N as nat),
    {
        let row: [Option<Player>; N] = [None;N];
        let board = Self([row;N]);
        assert(board@ =~~= empty_cells(N as nat));
        board
    }
}

impl<const N: usize> Board<N> {
    /// Every board of side `N` has `N` columns of `N` cells.
    pub proof fn lemma_square(&self)
        ensures
            is_square(self@, N as nat),
    {
    }

    pub fn at(&self, cell: &Cell) -> (content: &Option<Player>)
        requires
            in_board(N as nat, *cell),
        ensures
            *content == at_spec(self@, *cell),
    {
        &self.0[cell.0][cell.1]
    }

    pub fn at_mut(&mut self, cell: &Cell) -> (content: &mut Option<Player>)
        requires
            in_board(N as nat, *cell),
        ensures
            *content == at_spec(old(self)@, *cell),
            final(self)@ == put(old(self)@, *cell, *final(content)),
    {
        &mut self.0[cell.0][cell.1]
    }

    pub fn set(&mut self, cell: &Cell, player: Player) -> (before: Option<Player>)
        requires
            in_board(N as nat, *cell),
        ensures
            before == at_spec(old(self)@, *cell),
            final(self)@ == put(old(self)@, *cell, Some(player)),
    {
        let before = self.0[cell.0][cell.1];
        self.0[cell.0][cell.1] = Some(player);
        assert(self@ =~~= put(old(self)@, *cell, Some(player)));
        before
    }

    pub fn clear(&mut self, cell: &Cell)
        requires
            in_board(N as nat, *cell),
        ensures
            final(self)@ == put(old(self)@, *cell, None),
    {
        self.0[cell.0][cell.1] = None;
        assert(self@ =~~= put(old(self)@, *cell, None));
    }

    /// What stands on a cell, as text: `R`, `B`, or `_` for nothing.
    pub fn cell_to_string(&self, cell: &Cell) -> (text: String)
        requires
            in_board(N as nat, *cell),
        ensures
            text@ == stone_text(at_spec(self@, *cell)),
    {
        proof {
            reveal_strlit("_");
        }
        match self.at(cell) {
            Some(player) => player.to_string(),
            None => {
                let text = "_".to_string();
                assert(text@ =~= seq!['_']);
                text
            },
        }
    }

    /// The board as text: the line of the column letters, then the line of
    /// each row, each shifted by one blank against the row above.
    pub fn to_string(&self) -> (text: String)
        requires
            N <= 191,
        ensures
            text@ == board_text(self@),
    {
        proof {
            reveal_strlit("   ");
            reveal_strlit(" ");
            reveal_strlit("\n");
            self.lemma_square();
        }
        let mut text = "   ".to_string();
        assert(text@ =~= header_text(0));
        let mut i: usize = 0;
        while i < N
            invariant
                i <= N <= 191,
                " "@ == seq![' '],
                text@ == header_text(i as nat),
            decreases N - i,
        {
            push_char(&mut text, i_char(i));
            text.append(" ");
            assert(text@ =~= header_text((i + 1) as nat));
            i += 1;
        }
        let mut j: usize = 0;
        assert(text@ =~= header_text(N as nat) + rows_text(self@, 0));
        while j < N
            invariant
                j <= N <= 191,
                " "@ == seq![' '],
                "\n"@ == seq!['\n'],
                is_square(self@, N as nat),
                text@ == header_text(N as nat) + rows_text(self@, j as nat),
            decreases N - j,
        {
            let ghost before = text@;
            text.append("\n");
            let mut k: usize = 0;
            while k < j
                invariant
                    k <= j < N,
                    " "@ == seq![' '],
                    text@ == before + seq!['\n'] + blanks(k as nat),
                decreases j - k,
            {
                text.append(" ");
                assert(text@ =~= before + seq!['\n'] + blanks((k + 1) as nat));
                k += 1;
            }
            push_number(&mut text, j as u128 + 1);
            if j + 1 < 10 {
                text.append(" ");
            }
            let ghost start = before + seq!['\n'] + blanks(j as nat) + row_label(j as int);
            assert(text@ =~= start + stones_text(self@, j as int, 0));
            let mut i: usize = 0;
            while i < N
                invariant
                    i <= N <= 191,
                    j < N,
                    " "@ == seq![' '],
                    is_square(self@, N as nat),
                    text@ == start + stones_text(self@, j as int, i as nat),
                decreases N - i,
            {
                text.append(" ");
                let stone = self.cell_to_string(&Cell(i, j));
                text.append(stone.as_str());
                assert(text@ =~= start + stones_text(self@, j as int, (i + 1) as nat));
                i += 1;
            }
            assert(text@ =~= header_text(N as nat) + rows_text(self@, (j + 1) as nat));
            j += 1;
        }
        text
    }

    /// The neighbours of a cell on this board.
    fn adj_iter(&self, cell: &Cell) -> (adjacent: Vec<Cell>)
        requires
            in_board(N as nat, *cell),
        ensures
            adjacent@ == neighbours(N as nat, *cell),
    {
        let i = cell.0;
        let j = cell.1;
        let mut adjacent: Vec<Cell> = Vec::new();
        if i < N - 1 && j > 0 {
            adjacent.push(Cell(i + 1, j - 1));
        }
        if j > 0 {
            adjacent.push(Cell(i, j - 1));
        }
        if i > 0 {
            adjacent.push(Cell(i - 1, j));
        }
        if i < N - 1 {
            adjacent.push(Cell(i + 1, j));
        }
        if i > 0 && j < N - 1 {
            adjacent.push(Cell(i - 1, j + 1));
        }
        if j < N - 1 {
            adjacent.push(Cell(i, j + 1));
        }
        assert(adjacent@ =~= neighbours(N as nat, *cell));
        adjacent
    }
}

impl Player {
    /// The letter of the player: `R` or `B`.
    pub fn to_string(&self) -> (text: String)
        ensures
            text@ == stone_text(Some(*self)),
    {
        proof {
            reveal_strlit("R");
            reveal_strlit("B");
        }
        let text = match self {
            Player::Red => "R".to_string(),
            Player::Blue => "B".to_string(),
        };
        assert(text@ =~= stone_text(Some(*self)));
        text
    }

    pub fn other(&self) -> (other: Player)
        ensures
            other == other_spec(*self),
    {
        match self {
            Player::Red => Player::Blue,
            Player::Blue => Player::Red,
        }
    }

    pub fn occupies<const N: usize>(&self, board: &Board<N>, cell: &Cell) -> (occupies: bool)
        requires
            in_board(N as nat, *cell),
        ensures
            occupies == holds(board@, *self, *cell),
    {
        proof {
            board.lemma_square();
        }
        match board.at(cell) {
            Some(player_at_cell) => *player_at_cell == *self,
            None => false,
        }
    }

    fn is_end<const N: usize>(&self, cell: &Cell) -> (end: bool)
        requires
            N > 0,
        ensures
            end == is_end_spec(*self, N as nat, *cell),
    {
        match self {
            Player::Red => cell.1 == N - 1,
            Player::Blue => cell.0 == N - 1,
        }
    }
}

impl Player {
    /// The stones of this player on the edge that the player starts from.
    fn start_cell_iter<const N: usize>(&self, board: &Board<N>) -> (starts: Vec<Cell>)
        ensures
            starts@ == held_among(board@, *self, start_cells(*self, N as nat)),
    {
        let mut starts: Vec<Cell> = Vec::new();
        let mut k: usize = 0;
        while k < N
            invariant
                k <= N,
                starts@ == held_among(board@, *self, start_cells(*self, N as nat).take(k as int)),
            decreases N - k,
        {
            let cell = match *self {
                Player::Red => Cell(k, 0),
                Player::Blue => Cell(0, k),
            };
            proof {
                let front = start_cells(*self, N as nat).take(k as int + 1);
                assert(front.drop_last() == start_cells(*self, N as nat).take(k as int));
                assert(front.last() == cell);
            }
            if self.occupies(board, &cell) {
                starts.push(cell);
            }
            k += 1;
        }
        assert(start_cells(*self, N as nat).take(N as int) == start_cells(*self, N as nat));
        starts
    }

    /// The stones of this player next to a cell.
    fn connect_iter<const N: usize>(&self, board: &Board<N>, cell: &Cell) -> (connected: Vec<Cell>)
        requires
            in_board(N as nat, *cell),
        ensures
            connected@ == held_among(board@, *self, neighbours(N as nat, *cell)),
    {
        let adjacent = board.adj_iter(cell);
        let mut connected: Vec<Cell> = Vec::new();
        let mut k: usize = 0;
        while k < adjacent.len()
            invariant
                k <= adjacent@.len(),
                in_board(N as nat, *cell),
                adjacent@ == neighbours(N as nat, *cell),
                connected@ == held_among(board@, *self, adjacent@.take(k as int)),
            decreases adjacent@.len() - k,
        {
            proof {
                let front = adjacent@.take(k as int + 1);
                assert(front.drop_last() == adjacent@.take(k as int));
                assert(front.last() == adjacent@[k as int]);
                assert(adjacent@.contains(adjacent@[k as int]));
                lemma_neighbours(N as nat, *cell, adjacent@[k as int]);
            }
            if self.occupies(board, &adjacent[k]) {
                connected.push(adjacent[k]);
            }
            k += 1;
        }
        assert(adjacent@.take(k as int) == adjacent@);
        connected
    }

    /// Whether this player has a chain of stones from one edge to the other.
    fn wins<const N: usize>(&self, board: &Board<N>) -> (won: bool)
        ensures
            won == connects(board@, *self),
    {
        let mut seen: HashSet<u128> = HashSet::new();
        let starts = self.start_cell_iter(board);
        let ghost cells = board@;
        proof {
            board.lemma_square();
        }
        let mut k: usize = 0;
        while k < starts.len()
            invariant
                k <= starts@.len(),
                cells == board@,
                is_square(cells, N as nat),
                starts@ == held_among(cells, *self, start_cells(*self, N as nat)),
                seen@ == Set::<u128>::empty(),
                forall|t: int|
                    0 <= t < k ==> !reaches_end(cells, *self, #[trigger] starts@[t], seen@),
            decreases starts@.len() - k,
        {
            proof {
                assert(starts@.contains(starts@[k as int]));
                lemma_held_among(cells, *self, start_cells(*self, N as nat), starts@[k as int]);
            }
            if self.wins_from(board, &starts[k], &mut seen) {
                proof {
                    let start = starts@[k as int];
                    let chain = choose|chain: Seq<Cell>|
                        #![trigger is_chain(cells, *self, chain)]
                        is_chain(cells, *self, chain) && chain[0] == start && is_end_spec(
                            *self,
                            cells.len(),
                            chain.last(),
                        ) && avoids(chain, Set::<u128>::empty());
                    let edge = start_cells(*self, N as nat);
                    let t = choose|t: int| 0 <= t < edge.len() && edge[t] == start;
                    assert(edge[t] == start);
                    assert(is_start(*self, start));
                    assert(is_chain(cells, *self, chain));
                }
                return true;
            }
            k += 1;
        }
        proof {
            if connects(cells, *self) {
                let chain = choose|chain: Seq<Cell>|
                    #![trigger is_chain(cells, *self, chain)]
                    is_chain(cells, *self, chain) && is_start(*self, chain[0]) && is_end_spec(
                        *self,
                        cells.len(),
                        chain.last(),
                    );
                let start = chain[0];
                assert(holds(cells, *self, start));
                let at = match *self {
                    Player::Red => start.0 as int,
                    Player::Blue => start.1 as int,
                };
                assert(start_cells(*self, N as nat)[at] == start);
                lemma_held_among(cells, *self, start_cells(*self, N as nat), start);
                let t = choose|t: int| 0 <= t < starts@.len() && starts@[t] == start;
                assert(is_chain(cells, *self, chain));
                assert(avoids(chain, seen@));
                assert(reaches_end(cells, *self, starts@[t], seen@));
            }
        }
        false
    }

    /// Whether a chain of stones of this player leads from `cell` to the edge
    /// that the player has to reach, without a cell that is in `seen`.
    ///
    /// The search goes through the neighbours in depth; a cell is in `seen`
    /// while the search is below it, and leaves when the search comes back
    /// without a chain.
    fn wins_from<const N: usize>(
        &self,
        board: &Board<N>,
        cell: &Cell,
        seen: &mut HashSet<u128>,
    ) -> (won: bool)
        requires
            in_board(N as nat, *cell),
            old(seen)@.subset_of(board_ids(N as nat)),
        ensures
            won == reaches_end(board@, *self, *cell, old(seen)@),
            !won ==> final(seen)@ == old(seen)@,
            final(seen)@.subset_of(board_ids(N as nat)),
        decreases N * 0x1_0000_0000_0000_0000 - old(seen)@.len(),
    {
        let ghost cells = board@;
        let ghost before = seen@;
        proof {
            board.lemma_square();
            lemma_seen_bound(before, N as nat);
        }
        let id = cell.id();
        if seen.contains(&id) {
            proof {
                lemma_no_way_from(cells, *self, *cell, before);
            }
            return false;
        }
        if !self.occupies(board, cell) {
            proof {
                lemma_no_way_from(cells, *self, *cell, before);
            }
            return false;
        }
        if self.is_end::<N>(cell) {
            proof {
                lemma_way_at_end(cells, *self, *cell, before);
            }
            return true;
        }
        seen.insert(id);
        let ghost below = seen@;
        proof {
            assert(below.subset_of(board_ids(N as nat)));
            lemma_seen_bound(below, N as nat);
        }
        let connected = self.connect_iter(board, cell);
        let mut k: usize = 0;
        while k < connected.len()
            invariant
                k <= connected@.len(),
                cells == board@,
                in_board(N as nat, *cell),
                holds(cells, *self, *cell),
                !before.contains(cell_id(*cell)),
                before.finite(),
                before == old(seen)@,
                below == before.insert(cell_id(*cell)),
                below.subset_of(board_ids(N as nat)),
                below.len() <= N * 0x1_0000_0000_0000_0000,
                seen@ == below,
                connected@ == held_among(cells, *self, neighbours(N as nat, *cell)),
                forall|t: int|
                    0 <= t < k ==> !reaches_end(cells, *self, #[trigger] connected@[t], below),
            decreases connected@.len() - k,
        {
            proof {
                assert(connected@.contains(connected@[k as int]));
                lemma_held_among(
                    cells,
                    *self,
                    neighbours(N as nat, *cell),
                    connected@[k as int],
                );
                lemma_neighbours(N as nat, *cell, connected@[k as int]);
            }
            if self.wins_from(board, &connected[k], seen) {
                proof {
                    lemma_way_through(cells, *self, *cell, connected@[k as int], before);
                }
                return true;
            }
            k += 1;
        }
        seen.remove(&id);
        proof {
            assert(seen@ == before);
            assert forall|next: Cell|
                in_board(N as nat, next) && adjacent(*cell, next) && holds(
                    cells,
                    *self,
                    next,
                ) implies !#[trigger] reaches_end(cells, *self, next, below) by {
                lemma_neighbours(N as nat, *cell, next);
                lemma_held_among(cells, *self, neighbours(N as nat, *cell), next);
                let t = choose|t: int| 0 <= t < connected@.len() && connected@[t] == next;
                assert(!reaches_end(cells, *self, connected@[t], below));
            }
            lemma_no_way_through(cells, *self, N as nat, *cell, before);
        }
        false
    }
}

/// The reward of a draw: 0.1.
pub const DRAW: i64 = 100_000;

/// The reward of a game that Red has won: 1.
pub const RED_WINS: i64 = 1_000_000;

/// The reward of a game that Blue has won: -1.
pub const BLUE_WINS: i64 = -1_000_000;

/// A game of Hex on a board of side `N`.
#[derive(Debug)]
pub struct Hex<const N: usize> {
    board: Board<N>,
    empty_cells: HashSet<u128>,
    taken: Vec<Cell>,
    next: Player,
    winner: Option<Player>,
}

impl<const N: usize> View for Hex<N> {
    type V = HexView;

    closed spec fn view(&self) -> HexView {
        HexView {
            cells: self.board@,
            empty: self.empty_cells@,
            taken: self.taken@,
            next: self.next,
            winner: self.winner,
        }
    }
}

/// The numbers of the cells of a board on which nothing stands.
fn free_cells<const N: usize>(board: &Board<N>) -> (free: HashSet<u128>)
    ensures
        free@ == free_ids(board@),
{
    let mut free: HashSet<u128> = HashSet::new();
    let ghost cells = board@;
    proof {
        board.lemma_square();
    }
    let mut i: usize = 0;
    while i < N
        invariant
            i <= N,
            cells == board@,
            is_square(cells, N as nat),
            forall|id: u128|
                free@.contains(id) <==> exists|cell: Cell|
                    cell.0 < i && cell.1 < N && at_spec(cells, cell) is None
                        && #[trigger] cell_id(cell) == id,
        decreases N - i,
    {
        let mut j: usize = 0;
        while j < N
            invariant
                i < N,
                j <= N,
                cells == board@,
                is_square(cells, N as nat),
                forall|id: u128|
                    free@.contains(id) <==> exists|cell: Cell|
                        (cell.0 < i && cell.1 < N || cell.0 == i && cell.1 < j) && at_spec(
                            cells,
                            cell,
                        ) is None && #[trigger] cell_id(cell) == id,
            decreases N - j,
        {
            let cell = Cell(i, j);
            let ghost before = free@;
            if board.at(&cell).is_none() {
                free.insert(cell.id());
            }
            proof {
                assert forall|id: u128| free@.contains(id) <==> exists|other: Cell|
                    (other.0 < i && other.1 < N || other.0 == i && other.1 < j + 1) && at_spec(
                        cells,
                        other,
                    ) is None && #[trigger] cell_id(other) == id by {
                    if free@.contains(id) {
                        if before.contains(id) {
                            let other = choose|other: Cell|
                                (other.0 < i && other.1 < N || other.0 == i && other.1 < j)
                                    && at_spec(cells, other) is None && #[trigger] cell_id(other)
                                    == id;
                            assert(cell_id(other) == id);
                        } else {
                            assert(cell_id(cell) == id);
                        }
                    }
                    if exists|other: Cell|
                        (other.0 < i && other.1 < N || other.0 == i && other.1 < j + 1) && at_spec(
                            cells,
                            other,
                        ) is None && #[trigger] cell_id(other) == id {
                        let other = choose|other: Cell|
                            (other.0 < i && other.1 < N || other.0 == i && other.1 < j + 1)
                                && at_spec(cells, other) is None && #[trigger] cell_id(other)
                                == id;
                        if other != cell {
                            assert(cell_id(other) == id);
                            assert(before.contains(id));
                        }
                    }
                }
            }
            j += 1;
        }
        proof {
            assert forall|id: u128| free@.contains(id) <==> exists|cell: Cell|
                cell.0 < i + 1 && cell.1 < N && at_spec(cells, cell) is None
                    && #[trigger] cell_id(cell) == id by {
                if free@.contains(id) {
                    let cell = choose|cell: Cell|
                        (cell.0 < i && cell.1 < N || cell.0 == i && cell.1 < j) && at_spec(
                            cells,
                            cell,
                        ) is None && #[trigger] cell_id(cell) == id;
                    assert(cell_id(cell) == id);
                }
                if exists|cell: Cell|
                    cell.0 < i + 1 && cell.1 < N && at_spec(cells, cell) is None
                        && #[trigger] cell_id(cell) == id {
                    let cell = choose|cell: Cell|
                        cell.0 < i + 1 && cell.1 < N && at_spec(cells, cell) is None
                            && #[trigger] cell_id(cell) == id;
                    assert(cell_id(cell) == id);
                }
            }
        }
        i += 1;
    }
    proof {
        assert forall|id: u128| free@.contains(id) <==> free_ids(cells).contains(id) by {
            if free@.contains(id) {
                let cell = choose|cell: Cell|
                    cell.0 < i && cell.1 < N && at_spec(cells, cell) is None
                        && #[trigger] cell_id(cell) == id;
                assert(cell_id(cell) == id);
            }
            if free_ids(cells).contains(id) {
                let cell = choose|cell: Cell|
                    in_board(cells.len(), cell) && at_spec(cells, cell) is None
                        && #[trigger] cell_id(cell) == id;
                assert(cell_id(cell) == id);
            }
        }
        assert(free@ =~= free_ids(cells));
    }
    free
}

impl<const N: usize> Default for Hex<N> {
    fn default() -> (game: Self)
        ensures
            game@ == initial(N as nat),
            is_game(game@, N as nat),
    {
        let board: Board<N> = Default::default();
        let empty_cells = free_cells(&board);
        proof {
            board.lemma_square();
            lemma_free_ids_of_empty(N as nat);
            lemma_empty_connects_nothing(N as nat, Player::Blue);
        }
        Self { board, empty_cells, taken: Vec::new(), next: Player::Red, winner: None }
    }
}

impl<const N: usize> Clone for Hex<N> {
    fn clone(&self) -> (copy: Self)
        ensures
            is_game(self@, N as nat) ==> copy@ == self@,
    {
        let mut taken: Vec<Cell> = Vec::new();
        let mut k: usize = 0;
        while k < self.taken.len()
            invariant
                k <= self.taken@.len(),
                taken@ == self.taken@.take(k as int),
            decreases self.taken@.len() - k,
        {
            taken.push(self.taken[k]);
            assert(taken@ == self.taken@.take(k + 1));
            k += 1;
        }
        assert(self.taken@.take(k as int) == self.taken@);
        Self {
            board: self.board,
            empty_cells: free_cells(&self.board),
            taken,
            next: self.next,
            winner: self.winner,
        }
    }
}

impl<const N: usize> Hex<N> {
    /// Whether this is a game on a board of side `N`.
    pub open spec fn wf(&self) -> bool {
        is_game(self@, N as nat)
    }

    pub fn board(&self) -> (board: &Board<N>)
        ensures
            board@ == self@.cells,
    {
        &self.board
    }

    pub fn next(&self) -> (next: Player)
        ensures
            next == self@.next,
    {
        self.next
    }

    /// The cells on which nothing stands, column by column.
    pub fn empty_cell_iter(&self) -> (cells: Vec<Cell>)
        requires
            self.wf(),
        ensures
            forall|cell: Cell|
                cells@.contains(cell) <==> in_board(N as nat, cell) && at_spec(
                    self@.cells,
                    cell,
                ) is None,
            cells@.no_duplicates(),
    {
        let mut cells: Vec<Cell> = Vec::new();
        let mut i: usize = 0;
        while i < N
            invariant
                i <= N,
                self.wf(),
                forall|cell: Cell|
                    cells@.contains(cell) <==> cell.0 < i && cell.1 < N && at_spec(
                        self@.cells,
                        cell,
                    ) is None,
                cells@.no_duplicates(),
            decreases N - i,
        {
            let mut j: usize = 0;
            while j < N
                invariant
                    i < N,
                    j <= N,
                    self.wf(),
                    forall|cell: Cell|
                        cells@.contains(cell) <==> (cell.0 < i && cell.1 < N || cell.0 == i
                            && cell.1 < j) && at_spec(self@.cells, cell) is None,
                    cells@.no_duplicates(),
                decreases N - j,
            {
                let cell = Cell(i, j);
                let ghost before = cells@;
                if self.empty_cells.contains(&cell.id()) {
                    proof {
                        let other = choose|other: Cell|
                            in_board(self@.cells.len(), other) && at_spec(self@.cells, other)
                                is None && #[trigger] cell_id(other) == cell_id(cell);
                        lemma_cell_id_injective(other, cell);
                    }
                    cells.push(cell);
                    proof {
                        assert(cells@.last() == cell);
                        assert(!before.contains(cell));
                        assert forall|a: int, b: int|
                            0 <= a < cells@.len() && 0 <= b < cells@.len() && a
                                != b implies cells@[a] != cells@[b] by {
                            if a < before.len() {
                                assert(before.contains(before[a]));
                            }
                            if b < before.len() {
                                assert(before.contains(before[b]));
                            }
                        }
                        assert forall|other: Cell| cells@.contains(other) <==> (other.0 < i
                            && other.1 < N || other.0 == i && other.1 < j + 1) && at_spec(
                            self@.cells,
                            other,
                        ) is None by {
                            if cells@.contains(other) {
                                let k = choose|k: int| 0 <= k < cells@.len() && cells@[k] == other;
                                if k < before.len() {
                                    assert(before[k] == other);
                                    assert(before.contains(other));
                                }
                            }
                            if (other.0 < i && other.1 < N || other.0 == i && other.1 < j + 1)
                                && at_spec(self@.cells, other) is None {
                                if other == cell {
                                    assert(cells@[cells@.len() - 1] == other);
                                } else {
                                    assert(before.contains(other));
                                    let k = choose|k: int|
                                        0 <= k < before.len() && before[k] == other;
                                    assert(cells@[k] == other);
                                }
                            }
                        }
                    }
                } else {
                    proof {
                        if at_spec(self@.cells, cell) is None {
                            assert(cell_id(cell) == cell_id(cell));
                            assert(free_ids(self@.cells).contains(cell_id(cell)));
                        }
                    }
                }
                j += 1;
            }
            i += 1;
        }
        cells
    }

    /// The player to move takes a cell. Returns whether the player has won
    /// with it.
    pub fn next_take_cell(&mut self, cell: Cell) -> (won: bool)
        requires
            old(self).wf(),
            in_board(N as nat, cell),
        ensures
            final(self)@ == took(old(self)@, cell),
            final(self).wf(),
            won == (final(self)@.winner is Some),
    {
        let ghost before = self@;
        let _ = self.empty_cells.remove(&cell.id());
        let _ = self.board.set(&cell, self.next);
        self.taken.push(cell);
        self.winner = if self.next.wins(&self.board) {
            Some(self.next)
        } else {
            None
        };
        self.next = self.next.other();
        proof {
            lemma_free_ids_of_put(before.cells, N as nat, cell, Some(before.next));
            assert(self@.taken.last() == cell);
            assert forall|other: Cell|
                in_board(N as nat, other) && (#[trigger] at_spec(
                    self@.cells,
                    other,
                )) is Some implies self@.taken.contains(other) by {
                if other != cell {
                    assert(at_spec(before.cells, other) is Some);
                    let k = choose|k: int| 0 <= k < before.taken.len() && before.taken[k] == other;
                    assert(self@.taken[k] == other);
                } else {
                    assert(self@.taken[self@.taken.len() - 1] == other);
                }
            }
        }
        self.winner.is_some()
    }

    /// "Draws are impossible in Hex due to the topology of the game board",
    /// but anyway...
    pub fn is_draw(&self) -> (draw: bool)
        requires
            self.wf(),
        ensures
            draw == is_draw_spec(self@),
    {
        proof {
            lemma_full(self@.cells);
        }
        self.winner.is_none() && self.empty_cells.is_empty()
    }

    pub fn winner(&self) -> (winner: Option<Player>)
        ensures
            winner == self@.winner,
    {
        self.winner
    }

    /// The game as text: its board, and in a line of its own how it stands.
    pub fn to_string(&self) -> (text: String)
        requires
            self.wf(),
            N <= 191,
        ensures
            text@ == game_text(self@),
    {
        proof {
            reveal_strlit("\n");
        }
        let mut text = self.board.to_string();
        text.append("\n");
        match (self.winner(), self.is_draw()) {
            (Some(player), _) => {
                text.append(player.to_string().as_str());
                text.append(", wins");
            },
            (_, true) => {
                text.append("draw");
            },
            _ => {
                text.append("mid game");
            },
        }
        assert(text@ =~= game_text(self@));
        text
    }

    /// Takes back every move: the game is again as it was before the first.
    pub fn undo(&mut self)
        requires
            old(self).wf(),
        ensures
            final(self)@ == initial(N as nat),
            final(self).wf(),
    {
        while self.taken.len() > 0
            invariant
                N <= usize::MAX,
                is_square(self@.cells, N as nat),
                self@.empty == free_ids(self@.cells),
                forall|k: int|
                    0 <= k < self@.taken.len() ==> in_board(N as nat, #[trigger] self@.taken[k]),
                forall|cell: Cell|
                    in_board(N as nat, cell) && (#[trigger] at_spec(self@.cells, cell)) is Some
                        ==> self@.taken.contains(cell),
                self@.next == mover(self@.taken.len()),
            decreases self@.taken.len(),
        {
            let ghost before = self@;
            let cell = self.taken.pop().unwrap();
            assert(in_board(N as nat, before.taken[before.taken.len() - 1]));
            self.board.clear(&cell);
            let _ = self.empty_cells.insert(cell.id());
            self.next = self.next.other();
            proof {
                lemma_free_ids_of_put(before.cells, N as nat, cell, None);
                assert forall|other: Cell|
                    in_board(N as nat, other) && (#[trigger] at_spec(
                        self@.cells,
                        other,
                    )) is Some implies self@.taken.contains(other) by {
                    assert(other != cell);
                    assert(at_spec(before.cells, other) is Some);
                    let k = choose|k: int| 0 <= k < before.taken.len() && before.taken[k] == other;
                    assert(self@.taken[k] == other);
                }
            }
        }
        self.winner = None;
        proof {
            let cells = self@.cells;
            assert forall|i: int, j: int| 0 <= i < N && 0 <= j < N implies cells[i][j] is None by {
                let cell = Cell(i as usize, j as usize);
                if at_spec(cells, cell) is Some {
                    assert(self@.taken.contains(cell));
                }
            }
            assert(cells =~~= empty_cells(N as nat));
            lemma_free_ids_of_empty(N as nat);
            lemma_empty_connects_nothing(N as nat, Player::Blue);
            assert(self@.taken =~= Seq::<Cell>::empty());
        }
    }
}

impl<const N: usize> Board<N> {
    /// The picture of the board: 0 for an empty cell, 1 for a stone of Red,
    /// -1 for a stone of Blue.
    pub fn as_array(&self) -> (array: [[i32; N]; N])
        ensures
            picture(array) == codes(self@),
    {
        let row: [i32; N] = [0;N];
        let mut array: [[i32; N]; N] = [row;N];
        let mut i: usize = 0;
        while i < N
            invariant
                i <= N,
                forall|a: int, b: int|
                    0 <= a < i && 0 <= b < N ==> (#[trigger] array@[a]@[b]) == code(
                        self.0@[a]@[b],
                    ),
            decreases N - i,
        {
            let mut j: usize = 0;
            while j < N
                invariant
                    i < N,
                    j <= N,
                    forall|a: int, b: int|
                        0 <= a < i && 0 <= b < N ==> (#[trigger] array@[a]@[b]) == code(
                            self.0@[a]@[b],
                        ),
                    forall|b: int|
                        0 <= b < j ==> (#[trigger] array@[i as int]@[b]) == code(
                            self.0@[i as int]@[b],
                        ),
                decreases N - j,
            {
                array[i][j] = match self.0[i][j] {
                    None => 0,
                    Some(Player::Red) => 1,
                    Some(Player::Blue) => -1,
                };
                j += 1;
            }
            i += 1;
        }
        assert(picture(array) =~~= codes(self@));
        array
    }
}

impl<const N: usize> State<N> for Hex<N> {
    open spec fn inv(v: HexView) -> bool {
        is_game(v, N as nat)
    }

    open spec fn spec_init() -> HexView {
        initial(N as nat)
    }

    open spec fn spec_action_count(v: HexView) -> nat {
        v.taken.len()
    }

    open spec fn spec_take(v: HexView, action: Action) -> HexView {
        took(v, v.taken[action.0 as int])
    }

    open spec fn spec_reward(v: HexView) -> Option<Value> {
        reward_spec(v)
    }

    open spec fn spec_value(v: HexView, taken: Action, value: Value) -> Value {
        value_spec(value)
    }

    open spec fn spec_as_array(v: HexView) -> Seq<Seq<i32>> {
        codes(v.cells)
    }

    fn init() -> (state: Self) {
        Self::default()
    }

    fn action_count(&self) -> (count: usize) {
        self.taken.len()
    }

    /// Takes again the cell of an earlier move: the action is the position
    /// of that move among the moves made.
    fn take(&self, action: Action) -> (next: Self) {
        let cell = self.taken[action.index()];
        let mut moved = self.clone();
        moved.next_take_cell(cell);
        moved
    }

    fn reward(&self) -> (reward: Option<Value>) {
        if self.is_draw() {
            return Some(Value::from_micros(DRAW));
        }
        if let Some(player) = self.winner() {
            return Some(
                match player {
                    Player::Red => Value::from_micros(RED_WINS),
                    Player::Blue => Value::from_micros(BLUE_WINS),
                },
            );
        }
        None
    }

    fn value(&self, _taken: Action, value: Value) -> (own: Value) {
        if value.micros() != DRAW {
            value.neg()
        } else {
            value
        }
    }

    fn as_array(&self) -> (array: [[i32; N]; N]) {
        self.board.as_array()
    }
}

} // verus!
