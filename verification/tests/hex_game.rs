use search_rl::env::{Action, State};
use search_rl::hex::{
    cell, i_char, j_char, Board, Cell, Hex, Player, A, B, BLUE_WINS, C, D, DRAW, E, RED_WINS,
};
use search_rl::value::Value;

fn v(micros: i64) -> Value {
    Value::from_micros(micros)
}

fn play<const N: usize>(moves: &[Cell]) -> Hex<N> {
    let mut hex = Hex::<N>::default();
    for taken in moves {
        hex.next_take_cell(*taken);
    }
    hex
}

#[test]
fn empty_board_has_no_reward() {
    let hex = Hex::<5>::default();
    assert_eq!(hex.reward(), None);
    assert_eq!(hex.winner(), None);
    assert!(!hex.is_draw());
    assert_eq!(hex.next(), Player::Red);
    assert_eq!(hex.action_count(), 0);
    assert_eq!(Hex::<5>::init().reward(), None);
    assert_eq!(hex.empty_cell_iter().len(), 25);
}

#[test]
fn red_chain_from_top_to_bottom_wins() {
    let mut hex = Hex::<5>::default();
    let moves = [
        cell(E, 1), cell(A, 1),
        cell(D, 2), cell(A, 1),
        cell(C, 3), cell(A, 1),
        cell(D, 3), cell(A, 1),
        cell(E, 3), cell(A, 1),
        cell(E, 4), cell(A, 1),
        cell(C, 2), cell(A, 1),
        cell(B, 2), cell(A, 1),
        cell(A, 2), cell(A, 1),
        cell(A, 3), cell(A, 1),
        cell(A, 4), cell(A, 1),
        cell(B, 4), cell(A, 1),
    ];
    for cell_take in moves {
        assert!(!hex.next_take_cell(cell_take));
        assert_eq!(hex.reward(), None);
    }
    assert_eq!(hex.next(), Player::Red);
    assert!(hex.next_take_cell(cell(D, 5)));
    assert_eq!(hex.winner(), Some(Player::Red));
    assert_eq!(hex.reward(), Some(v(1_000_000)));
    assert_eq!(hex.next(), Player::Blue);
    assert!(!hex.is_draw());
}

#[test]
fn straight_red_column_wins() {
    let hex = play::<5>(&[
        Cell(2, 0), Cell(0, 0),
        Cell(2, 1), Cell(0, 1),
        Cell(2, 2), Cell(0, 2),
        Cell(2, 3), Cell(0, 3),
        Cell(2, 4),
    ]);
    assert_eq!(hex.winner(), Some(Player::Red));
    assert_eq!(hex.reward(), Some(v(RED_WINS)));
}

#[test]
fn blue_chain_from_side_to_side_wins() {
    let mut hex = play::<3>(&[
        Cell(0, 2), Cell(0, 0),
        Cell(1, 2), Cell(1, 0),
        Cell(2, 2),
    ]);
    assert_eq!(hex.winner(), None);
    assert!(hex.next_take_cell(Cell(2, 0)));
    assert_eq!(hex.winner(), Some(Player::Blue));
    assert_eq!(hex.reward(), Some(v(-1_000_000)));
    assert_eq!(BLUE_WINS, -1_000_000);
}

#[test]
fn chain_may_go_up_right_and_down_left() {
    let hex = play::<3>(&[Cell(2, 0), Cell(0, 0), Cell(1, 1), Cell(1, 0), Cell(0, 2)]);
    assert_eq!(hex.winner(), Some(Player::Red));
    let back = play::<3>(&[Cell(0, 2), Cell(0, 0), Cell(1, 1), Cell(1, 0), Cell(2, 0)]);
    assert_eq!(back.winner(), Some(Player::Red));
}

#[test]
fn cells_on_the_other_diagonal_are_not_adjacent() {
    let hex = play::<3>(&[Cell(0, 0), Cell(0, 1), Cell(1, 1), Cell(0, 2), Cell(2, 2)]);
    assert_eq!(hex.winner(), None);
    assert_eq!(hex.reward(), None);
}

#[test]
fn chain_may_wind_through_the_board() {
    let hex = play::<4>(&[
        Cell(0, 0), Cell(3, 3),
        Cell(0, 1), Cell(3, 2),
        Cell(1, 1), Cell(3, 1),
        Cell(2, 1), Cell(0, 3),
        Cell(2, 2), Cell(0, 2),
        Cell(2, 3),
    ]);
    assert_eq!(hex.winner(), Some(Player::Red));
}

#[test]
fn board_of_one_cell_is_won_by_the_first_move() {
    let mut hex = Hex::<1>::default();
    assert_eq!(hex.reward(), None);
    assert!(hex.next_take_cell(Cell(0, 0)));
    assert_eq!(hex.reward(), Some(v(1_000_000)));
}

#[test]
fn full_board_without_a_win_of_the_last_mover_is_a_draw() {
    let mut hex = Hex::<2>::default();
    assert!(!hex.next_take_cell(Cell(1, 0)));
    assert!(!hex.next_take_cell(Cell(0, 0)));
    assert!(hex.next_take_cell(Cell(1, 1)));
    assert_eq!(hex.winner(), Some(Player::Red));
    assert!(!hex.is_draw());
    assert!(!hex.next_take_cell(Cell(0, 1)));
    assert_eq!(hex.winner(), None);
    assert!(hex.is_draw());
    assert_eq!(hex.reward(), Some(v(100_000)));
    assert_eq!(DRAW, 100_000);
    assert!(hex.empty_cell_iter().is_empty());
}

#[test]
fn board_without_cells_is_drawn() {
    let hex = Hex::<0>::default();
    assert!(hex.is_draw());
    assert_eq!(hex.reward(), Some(v(100_000)));
    assert!(hex.empty_cell_iter().is_empty());
}

#[test]
fn no_draw_while_a_cell_is_empty() {
    let hex = play::<2>(&[Cell(0, 0), Cell(1, 1), Cell(1, 0)]);
    assert_eq!(hex.winner(), None);
    assert!(!hex.is_draw());
    assert_eq!(hex.empty_cell_iter(), vec![Cell(0, 1)]);
}

#[test]
fn undo_restores_the_initial_state() {
    let mut hex = play::<5>(&[
        Cell(2, 0), Cell(0, 0),
        Cell(2, 1), Cell(0, 1),
        Cell(2, 2), Cell(0, 2),
        Cell(2, 3), Cell(0, 3),
        Cell(2, 4),
    ]);
    assert_eq!(hex.winner(), Some(Player::Red));
    hex.undo();
    assert_eq!(hex.winner(), None);
    assert_eq!(hex.next(), Player::Red);
    assert_eq!(hex.reward(), None);
    assert_eq!(hex.action_count(), 0);
    assert_eq!(hex.empty_cell_iter().len(), 25);
    for i in 0..5 {
        for j in 0..5 {
            assert_eq!(*hex.board().at(&Cell(i, j)), None);
        }
    }
    assert_eq!(hex.as_array(), [[0; 5]; 5]);
}

#[test]
fn undo_after_an_odd_number_of_moves() {
    let mut hex = play::<3>(&[Cell(0, 0), Cell(1, 1), Cell(2, 2)]);
    assert_eq!(hex.next(), Player::Blue);
    hex.undo();
    assert_eq!(hex.next(), Player::Red);
    assert_eq!(hex.as_array(), [[0; 3]; 3]);
    hex.undo();
    assert_eq!(hex.next(), Player::Red);
    assert!(!hex.next_take_cell(Cell(1, 1)));
    assert_eq!(*hex.board().at(&Cell(1, 1)), Some(Player::Red));
}

#[test]
fn take_plays_an_earlier_move_again() {
    let hex = play::<3>(&[Cell(0, 0), Cell(1, 1)]);
    assert_eq!(hex.action_count(), 2);
    let first = hex.take(Action(0));
    assert_eq!(first.action_count(), 3);
    assert_eq!(first.next(), Player::Blue);
    assert_eq!(*first.board().at(&Cell(0, 0)), Some(Player::Red));
    assert_eq!(*first.board().at(&Cell(1, 1)), Some(Player::Blue));
    let second = hex.take(Action(1));
    assert_eq!(*second.board().at(&Cell(1, 1)), Some(Player::Red));
    assert_eq!(second.action_count(), 3);
    assert_eq!(second.take(Action(2)).action_count(), 4);
}

#[test]
fn take_leaves_the_receiver_as_it_was() {
    let hex = play::<3>(&[Cell(0, 0), Cell(1, 1)]);
    let before = hex.as_array();
    let _ = hex.take(Action(1));
    let _ = hex.take(Action(0));
    assert_eq!(hex.as_array(), before);
    assert_eq!(hex.action_count(), 2);
    assert_eq!(hex.next(), Player::Red);
    assert_eq!(*hex.board().at(&Cell(1, 1)), Some(Player::Blue));
}

#[test]
fn take_can_win() {
    let hex = play::<2>(&[Cell(1, 0), Cell(0, 0), Cell(1, 1), Cell(0, 1)]);
    assert_eq!(hex.reward(), Some(v(100_000)));
    let again = hex.take(Action(0));
    assert_eq!(again.winner(), Some(Player::Red));
    assert_eq!(again.reward(), Some(v(1_000_000)));
    let flipped = hex.take(Action(1));
    assert_eq!(*flipped.board().at(&Cell(0, 0)), Some(Player::Red));
    assert_eq!(flipped.reward(), Some(v(1_000_000)));
}

#[test]
fn value_is_negated_but_for_a_draw() {
    let hex = Hex::<3>::default();
    assert_eq!(hex.value(Action(0), v(1_000_000)), v(-1_000_000));
    assert_eq!(hex.value(Action(0), v(-1_000_000)), v(1_000_000));
    assert_eq!(hex.value(Action(5), v(100_000)), v(100_000));
    assert_eq!(hex.value(Action(0), v(0)), v(0));
    assert_eq!(hex.value(Action(0), v(-100_000)), v(100_000));
    assert_eq!(hex.value(Action(0), v(i64::MIN)), v(i64::MAX));
}

#[test]
fn as_array_pictures_the_stones() {
    let hex = play::<3>(&[Cell(0, 1), Cell(2, 0), Cell(1, 1)]);
    assert_eq!(hex.as_array(), [[0, 1, 0], [0, 1, 0], [-1, 0, 0]]);
    assert_eq!(hex.board().as_array(), hex.as_array());
}

#[test]
fn board_cells_are_set_and_cleared() {
    let mut board = Board::<3>::default();
    assert_eq!(*board.at(&Cell(1, 2)), None);
    assert_eq!(board.set(&Cell(1, 2), Player::Blue), None);
    assert_eq!(board.set(&Cell(1, 2), Player::Red), Some(Player::Blue));
    assert_eq!(*board.at(&Cell(1, 2)), Some(Player::Red));
    assert_eq!(*board.at(&Cell(2, 1)), None);
    *board.at_mut(&Cell(2, 1)) = Some(Player::Blue);
    assert_eq!(board.cell_to_string(&Cell(2, 1)), "B");
    assert_eq!(board.cell_to_string(&Cell(1, 2)), "R");
    assert_eq!(board.cell_to_string(&Cell(0, 0)), "_");
    board.clear(&Cell(1, 2));
    assert_eq!(*board.at(&Cell(1, 2)), None);
    assert!(Player::Blue.occupies(&board, &Cell(2, 1)));
    assert!(!Player::Red.occupies(&board, &Cell(2, 1)));
    assert!(!Player::Red.occupies(&board, &Cell(0, 0)));
}

#[test]
fn players_and_cells() {
    assert_eq!(Player::Red.other(), Player::Blue);
    assert_eq!(Player::Blue.other(), Player::Red);
    assert_eq!(Player::Red.to_string(), "R");
    assert_eq!(Player::Blue.to_string(), "B");
    assert_eq!(Cell::new((3, 4)), Cell(3, 4));
    assert_eq!(cell(E, 1), Cell(4, 0));
    assert_eq!(cell(A, 5), Cell(0, 4));
    assert_eq!((A, B, C, D, E), (0, 1, 2, 3, 4));
    assert_eq!(i_char(0), 'A');
    assert_eq!(i_char(16), 'Q');
    assert_eq!(i_char(25), 'Z');
    assert_eq!(i_char(26), '[');
    assert_eq!(i_char(190), '\u{ff}');
    assert_eq!(j_char(0), '1');
    assert_eq!(j_char(8), '9');
    assert_eq!(j_char(9), ':');
    assert_eq!(j_char(206), '\u{ff}');
}

#[test]
fn cells_are_named_by_letter_and_digit() {
    assert_eq!(Cell(0, 0).to_string(), "A1");
    assert_eq!(cell(E, 1).to_string(), "E1");
    assert_eq!(Cell(3, 4).to_string(), "D5");
    assert_eq!(Cell(25, 8).to_string(), "Z9");
    assert_eq!(Cell(10, 9).to_string(), "K10");
    assert_eq!(Cell(0, 122).to_string(), "A123");
    assert_eq!(Cell(26, 0).to_string(), "[1");
    assert_eq!(Cell(1, usize::MAX).to_string(), format!("B{}", usize::MAX as u128 + 1));
}

#[test]
fn board_of_eleven_rows_numbers_them_in_decimal() {
    let mut hex = Hex::<11>::default();
    hex.next_take_cell(Cell(10, 9));
    hex.next_take_cell(Cell(0, 10));
    let text = hex.board().to_string();
    let lines: Vec<&str> = text.split('\n').collect();
    assert_eq!(lines.len(), 12);
    assert_eq!(lines[0], "   A B C D E F G H I J K ");
    assert_eq!(lines[1], "1  _ _ _ _ _ _ _ _ _ _ _");
    assert_eq!(lines[9], "        9  _ _ _ _ _ _ _ _ _ _ _");
    assert_eq!(lines[10], "         10 _ _ _ _ _ _ _ _ _ _ R");
    assert_eq!(lines[11], "          11 B _ _ _ _ _ _ _ _ _ _");
    assert!(hex.to_string().ends_with("_ _\nmid game"));
}

#[test]
fn board_shows_as_a_slanted_grid() {
    let empty = Board::<3>::default();
    assert_eq!(empty.to_string(), "   A B C \n1  _ _ _\n 2  _ _ _\n  3  _ _ _");
    let hex = play::<3>(&[Cell(0, 1), Cell(2, 0), Cell(1, 1)]);
    assert_eq!(hex.board().to_string(), "   A B C \n1  _ _ B\n 2  R R _\n  3  _ _ _");
    assert_eq!(Board::<0>::default().to_string(), "   ");
    assert_eq!(Board::<1>::default().to_string(), "   A \n1  _");
}

#[test]
fn game_shows_its_board_and_how_it_stands() {
    let hex = play::<3>(&[Cell(0, 1), Cell(2, 0), Cell(1, 1)]);
    assert_eq!(
        hex.to_string(),
        "   A B C \n1  _ _ B\n 2  R R _\n  3  _ _ _\nmid game"
    );
    let won = play::<2>(&[Cell(1, 0), Cell(0, 0), Cell(1, 1)]);
    assert_eq!(won.to_string(), "   A B \n1  B R\n 2  _ R\nR, wins");
    let drawn = play::<2>(&[Cell(1, 0), Cell(0, 0), Cell(1, 1), Cell(0, 1)]);
    assert_eq!(drawn.to_string(), "   A B \n1  B R\n 2  B R\ndraw");
    let blue = play::<3>(&[
        Cell(0, 2), Cell(0, 0),
        Cell(1, 2), Cell(1, 0),
        Cell(2, 2), Cell(2, 0),
    ]);
    assert_eq!(
        blue.to_string(),
        "   A B C \n1  B B B\n 2  _ _ _\n  3  R R R\nB, wins"
    );
}

#[test]
fn empty_cells_are_those_without_a_stone() {
    let hex = play::<2>(&[Cell(1, 0), Cell(0, 1)]);
    assert_eq!(hex.empty_cell_iter(), vec![Cell(0, 0), Cell(1, 1)]);
    let again = hex.take(Action(0));
    assert_eq!(again.empty_cell_iter(), vec![Cell(0, 0), Cell(1, 1)]);
}
