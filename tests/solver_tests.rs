use tictactoe::board::{Board, Player};
use tictactoe::solver::{analyze_opening, move_results, select_optimal, solve, Memo};

fn board(s: &str) -> Board {
    let mut cells = [None; 9];
    for (i, ch) in s.chars().enumerate() {
        cells[i] = match ch {
            'X' => Some(Player::X),
            'O' => Some(Player::O),
            _ => None,
        };
    }
    Board::from_cells(cells)
}

#[test]
fn solve_terminal_win_and_loss() {
    let mut memo = Memo::new();
    let b = board("XXXOO....");
    assert_eq!(solve(&b, Player::X, &mut memo), 1);
    assert_eq!(solve(&b, Player::O, &mut memo), -1);
}

#[test]
fn solve_terminal_draw() {
    let mut memo = Memo::new();
    let b = board("XOXXOOOXX");
    assert_eq!(solve(&b, Player::X, &mut memo), 0);
    assert_eq!(solve(&b, Player::O, &mut memo), 0);
}

#[test]
fn terminal_values_negate_between_players() {
    let mut memo = Memo::new();
    for s in ["XXXOO....", "OOOXX.X..", "XOXXOOOXX"] {
        let b = board(s);
        let x = solve(&b, Player::X, &mut memo);
        let o = solve(&b, Player::O, &mut memo);
        assert_eq!(x, -o);
    }
}

#[test]
fn solve_finds_immediate_win() {
    let mut memo = Memo::new();
    assert_eq!(solve(&board("XX.OO...."), Player::X, &mut memo), 1);
}

#[test]
fn solve_sees_unstoppable_fork() {
    // X threatens both cell 2 and cell 6; O can block only one of them.
    let mut memo = Memo::new();
    assert_eq!(solve(&board("XX.X.O.O."), Player::O, &mut memo), -1);
}

#[test]
fn solve_forced_draw_last_move() {
    let mut memo = Memo::new();
    assert_eq!(solve(&board("XOXXOOOX."), Player::X, &mut memo), 0);
}

#[test]
fn solve_twice_is_identical_and_hits_memo() {
    let mut memo = Memo::new();
    let b = board("X...O....");
    assert_eq!(memo.get(&b, Player::X), None);
    let first = solve(&b, Player::X, &mut memo);
    assert_eq!(memo.get(&b, Player::X), Some(first));
    let second = solve(&b, Player::X, &mut memo);
    assert_eq!(first, second);
    assert_eq!(first, 0);
}

#[test]
fn memo_keeps_movers_apart() {
    let mut memo = Memo::new();
    let b = board("XX.OO....");
    assert_eq!(solve(&b, Player::X, &mut memo), 1);
    assert_eq!(memo.get(&b, Player::O), None);
    assert_eq!(solve(&b, Player::O, &mut memo), 1);
    assert_eq!(memo.get(&b, Player::X), Some(1));
}

#[test]
fn non_terminal_value_is_best_negated_child() {
    let mut memo = Memo::new();
    let b = board("X...O..X.");
    let v = solve(&b, Player::O, &mut memo);
    let results = move_results(&b, Player::O, &mut memo);
    let mut best = -2;
    for &(m, r) in &results {
        let child = b.make_move(m, Player::O).unwrap();
        let mut other = Memo::new();
        assert_eq!(r, -solve(&child, Player::X, &mut other));
        if r > best {
            best = r;
        }
    }
    assert_eq!(v, best);
}

#[test]
fn move_results_list_each_legal_move() {
    let mut memo = Memo::new();
    let b = board("XX.OO....");
    let results = move_results(&b, Player::X, &mut memo);
    let moves: Vec<usize> = results.iter().map(|r| r.0).collect();
    assert_eq!(moves, vec![2, 5, 6, 7, 8]);
    assert_eq!(results[0], (2, 1));
}

#[test]
fn select_optimal_single_best_is_point_mass() {
    let c = select_optimal(&vec![(0, -1), (3, 1), (5, 0)]);
    assert_eq!(c.best, 1);
    assert_eq!(c.tied, vec![3]);
}

#[test]
fn select_optimal_keeps_all_ties_in_order() {
    let c = select_optimal(&vec![(7, 0), (1, -1), (2, 0), (4, 0)]);
    assert_eq!(c.best, 0);
    assert_eq!(c.tied, vec![7, 2, 4]);
}

#[test]
fn select_optimal_one_entry() {
    let c = select_optimal(&vec![(8, -1)]);
    assert_eq!(c.best, -1);
    assert_eq!(c.tied, vec![8]);
}

#[test]
fn select_optimal_handles_extreme_values() {
    let c = select_optimal(&vec![(0, -128), (1, 127), (2, 127)]);
    assert_eq!(c.best, 127);
    assert_eq!(c.tied, vec![1, 2]);
}

#[test]
fn empty_board_is_a_draw_with_every_opening_optimal() {
    let mut memo = Memo::new();
    let (results, choice) = analyze_opening(&mut memo);
    assert_eq!(results.len(), 9);
    for (i, r) in results.iter().enumerate() {
        assert_eq!(r.0, i);
        assert_eq!(r.1, 0);
    }
    assert_eq!(choice.best, 0);
    assert_eq!(choice.tied, vec![0, 1, 2, 3, 4, 5, 6, 7, 8]);
    assert_eq!(solve(&Board::new(), Player::X, &mut memo), 0);
}

#[test]
fn tie_set_at_node_holds_every_winning_move() {
    let mut memo = Memo::new();
    let b = board("XX.OO....");
    let o_view = select_optimal(&move_results(&b, Player::O, &mut memo));
    assert_eq!(o_view.best, 1);
    assert_eq!(o_view.tied, vec![2, 5]);
    let x_view = select_optimal(&move_results(&b, Player::X, &mut memo));
    assert_eq!(x_view.best, 1);
    assert_eq!(x_view.tied, vec![2]);
}
