use tictactoe::board::{Board, Outcome, Player};

fn board(s: &str) -> Board {
    let mut cells = [None; 9];
    for (i, ch) in s.chars().enumerate() {
        cells[i] = match ch {
            'X' => Some(Player::X),
            'O' => Some(Player::O),
            _ => None,
        };
    }
    Board::from_cells(cells)
}

#[test]
fn opponent_swaps_and_is_involutive() {
    assert_eq!(Player::X.opponent(), Player::O);
    assert_eq!(Player::O.opponent(), Player::X);
    assert_eq!(Player::X.opponent().opponent(), Player::X);
}

#[test]
fn new_board_is_empty_with_all_moves_legal() {
    let b = Board::new();
    for i in 0..9 {
        assert_eq!(b.cell(i), None);
    }
    assert_eq!(b.get_legal_moves(), vec![0, 1, 2, 3, 4, 5, 6, 7, 8]);
    assert_eq!(b.check_outcome(), None);
    assert_eq!(b.code(), 0);
}

#[test]
fn make_move_places_mark_on_copy() {
    let b = Board::new();
    let next = b.make_move(4, Player::X).unwrap();
    assert_eq!(next.cell(4), Some(Player::X));
    assert_eq!(b.cell(4), None);
    assert_eq!(next.get_legal_moves(), vec![0, 1, 2, 3, 5, 6, 7, 8]);
}

#[test]
fn make_move_rejects_taken_cell_and_bad_index() {
    let b = Board::new().make_move(0, Player::X).unwrap();
    assert!(b.make_move(0, Player::O).is_none());
    assert!(b.make_move(9, Player::O).is_none());
    assert!(b.make_move(100, Player::X).is_none());
}

#[test]
fn legal_moves_are_the_empty_cells_ascending() {
    assert_eq!(board("X.O.X.O..").get_legal_moves(), vec![1, 3, 5, 7, 8]);
    assert_eq!(board("XOXXOOOXX").get_legal_moves(), Vec::<usize>::new());
}

#[test]
fn outcome_detects_each_kind_of_line() {
    assert_eq!(board("XXXOO....").check_outcome(), Some(Outcome::Win(Player::X)));
    assert_eq!(board("XX.OOO.X.").check_outcome(), Some(Outcome::Win(Player::O)));
    assert_eq!(board("OX.OX..X.").check_outcome(), Some(Outcome::Win(Player::X)));
    assert_eq!(board("X.O.XO..X").check_outcome(), Some(Outcome::Win(Player::X)));
    assert_eq!(board("X.O.OXO.X").check_outcome(), Some(Outcome::Win(Player::O)));
}

#[test]
fn outcome_full_board_without_line_is_draw() {
    assert_eq!(board("XOXXOOOXX").check_outcome(), Some(Outcome::Draw));
}

#[test]
fn outcome_full_board_with_line_is_win() {
    assert_eq!(board("XXXOOXOXO").check_outcome(), Some(Outcome::Win(Player::X)));
}

#[test]
fn outcome_ongoing_is_none() {
    assert_eq!(board("XO.......").check_outcome(), None);
    assert_eq!(board("XOXXOO.X.").check_outcome(), None);
}

#[test]
fn same_cells_compares_occupancy() {
    let a = Board::new().make_move(0, Player::X).unwrap().make_move(4, Player::O).unwrap();
    let b = Board::new().make_move(4, Player::O).unwrap().make_move(0, Player::X).unwrap();
    assert!(a.same_cells(&b));
    assert_eq!(a.code(), b.code());
    let c = Board::new().make_move(0, Player::O).unwrap().make_move(4, Player::X).unwrap();
    assert!(!a.same_cells(&c));
    assert_ne!(a.code(), c.code());
}

#[test]
fn code_is_base_three() {
    assert_eq!(board("X........").code(), 1);
    assert_eq!(board(".O.......").code(), 6);
    assert_eq!(board("........O").code(), 13122);
    assert_eq!(board("OOOOOOOOO").code(), 19682);
}
