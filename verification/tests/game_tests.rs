//! The tic-tac-toe demonstration rules.

use review::game::{calculate_winner, SquareValue};

fn board(marks: [Option<SquareValue>; 9]) -> Vec<Option<SquareValue>> {
    marks.to_vec()
}

#[test]
fn empty_board_has_no_winner() {
    assert_eq!(calculate_winner(&board([None; 9])), None);
}

#[test]
fn row_win_is_found() {
    let x = Some(SquareValue::X);
    let o = Some(SquareValue::O);
    let b = board([x, x, x, o, o, None, None, None, None]);
    assert_eq!(calculate_winner(&b), Some(SquareValue::X));
}

#[test]
fn column_and_diagonal_wins_are_found() {
    let x = Some(SquareValue::X);
    let o = Some(SquareValue::O);
    let column = board([o, x, None, o, x, None, o, None, x]);
    assert_eq!(calculate_winner(&column), Some(SquareValue::O));
    let diagonal = board([x, o, None, o, x, None, None, None, x]);
    assert_eq!(calculate_winner(&diagonal), Some(SquareValue::X));
}

#[test]
fn first_line_in_order_decides() {
    let x = Some(SquareValue::X);
    let o = Some(SquareValue::O);
    // both players hold a full line; the earlier line in check order decides
    let b = board([x, x, x, o, o, o, None, None, None]);
    assert_eq!(calculate_winner(&b), Some(SquareValue::X));
}

#[test]
fn short_board_has_no_winner() {
    let x = Some(SquareValue::X);
    assert_eq!(calculate_winner(&vec![x, x, x]), Some(SquareValue::X));
    assert_eq!(calculate_winner(&vec![x, x]), None);
}
