use cs_projects::board::{Board, Cell, Player};
use cs_projects::tic_tac_toe_5x5::{
    alive_lines_through, budget_parts, count_open_twos, eval_window_weighted, heuristic,
    keep_deepening, order_moves,
};
use cs_projects::{tic_tac_toe_3x3, tic_tac_toe_5x5};
use std::time::{Duration, Instant};

fn grid(rows: &[&str]) -> Vec<Vec<Cell>> {
    rows.iter()
        .map(|r| {
            r.chars()
                .map(|c| match c {
                    'X' => Cell::X,
                    'O' => Cell::O,
                    '#' => Cell::Wall,
                    _ => Cell::Empty,
                })
                .collect()
        })
        .collect()
}

fn board(rows: &[&str]) -> Board {
    Board::from_cells(grid(rows)).expect("square board")
}

// An independent full-depth minimax on plain cells, X maximizing the score.
fn triplets(cells: &Vec<Vec<Cell>>, c: Cell) -> i32 {
    let n = cells.len() as i32;
    let dirs = [(0, 1), (1, 0), (1, 1), (1, -1)];
    let mut count = 0;
    for i in 0..n {
        for j in 0..n {
            for (di, dj) in dirs.iter() {
                let mut all = true;
                for k in 0..3 {
                    let r = i + k * di;
                    let s = j + k * dj;
                    if r < 0 || s < 0 || r >= n || s >= n || cells[r as usize][s as usize] != c {
                        all = false;
                    }
                }
                if all {
                    count += 1;
                }
            }
        }
    }
    count
}

fn game_value(cells: &mut Vec<Vec<Cell>>, x_to_move: bool) -> i32 {
    let n = cells.len();
    let mut best: Option<i32> = None;
    for i in 0..n {
        for j in 0..n {
            if cells[i][j] == Cell::Empty {
                cells[i][j] = if x_to_move { Cell::X } else { Cell::O };
                let v = game_value(cells, !x_to_move);
                cells[i][j] = Cell::Empty;
                best = Some(match best {
                    None => v,
                    Some(b) => {
                        if x_to_move {
                            b.max(v)
                        } else {
                            b.min(v)
                        }
                    }
                });
            }
        }
    }
    match best {
        None => triplets(cells, Cell::X) - triplets(cells, Cell::O),
        Some(v) => v,
    }
}

#[test]
fn new_board_is_empty() {
    let b = Board::new(3);
    assert_eq!(b.size(), 3);
    assert_eq!(b.moves().len(), 9);
    assert!(!b.game_over());
    assert_eq!(b.score(), 0);
    assert_eq!(b.moves()[0], (0, 0));
    assert_eq!(b.moves()[8], (2, 2));
}

#[test]
fn from_cells_rejects_non_square() {
    assert!(Board::from_cells(grid(&["XX", "X"])).is_none());
    assert!(Board::from_cells(grid(&["XXX", "XXX"])).is_none());
    assert!(Board::from_cells(Vec::new()).is_some());
}

#[test]
fn score_counts_lines_of_three() {
    assert_eq!(board(&["XXX", "O.O", "..."]).score(), 1);
    assert_eq!(board(&["X.O", ".XO", "..X"]).score(), 1);
    assert_eq!(board(&["XXXX", "....", "OOO.", "...."]).score(), 1);
    assert_eq!(board(&["OOO", "OOO", "OOO"]).score(), -8);
    assert_eq!(board(&["X#X", "X.X", "X.X"]).score(), 2);
}

#[test]
fn moves_skip_taken_cells_and_walls() {
    let b = board(&["X#.", ".O.", "..."]);
    assert_eq!(b.moves(), vec![(0, 2), (1, 0), (1, 2), (2, 0), (2, 1), (2, 2)]);
    let full = board(&["XO", "#X"]);
    assert!(full.game_over());
    assert!(full.moves().is_empty());
}

#[test]
fn undo_restores_board() {
    let mut b = board(&["X..", ".O.", "..."]);
    b.apply_move((2, 1), Player::X);
    assert_eq!(b.cell(2, 1), Cell::X);
    b.undo_move((2, 1), Player::X);
    assert_eq!(b.cell(2, 1), Cell::Empty);
    assert_eq!(b.get_cells(), &grid(&["X..", ".O.", "..."]));
}

#[test]
fn flip_swaps_players() {
    assert_eq!(Player::X.flip(), Player::O);
    assert_eq!(Player::O.flip(), Player::X);
}

#[test]
fn agent_3x3_completes_a_line() {
    let mut b = board(&["XX.", "OOX", "XOO"]);
    let r = tic_tac_toe_3x3::SolutionAgent::solve(&mut b, Player::X, 1000);
    assert_eq!(r, (1, 0, 2));
    assert_eq!(b.get_cells(), &grid(&["XX.", "OOX", "XOO"]));
}

#[test]
fn agent_3x3_as_o_blocks() {
    // O to move: whatever O does, X cannot get a line once O takes (0, 2).
    let mut b = board(&["XX.", "O..", "..."]);
    let mut cells = grid(&["XX.", "O..", "..."]);
    let expected = -game_value(&mut cells, false);
    let r = tic_tac_toe_3x3::SolutionAgent::solve(&mut b, Player::O, 1000);
    assert_eq!(r.0, expected);
    let mut after = grid(&["XX.", "O..", "..."]);
    after[r.1][r.2] = Cell::O;
    assert_eq!(-game_value(&mut after, true), expected);
}

#[test]
fn agent_3x3_matches_full_search_on_empty_board() {
    let mut b = Board::new(3);
    let r = tic_tac_toe_3x3::SolutionAgent::solve(&mut b, Player::X, 1000);
    let mut cells = grid(&["...", "...", "..."]);
    assert_eq!(r.0, game_value(&mut cells, true));
    assert_eq!(b.moves().len(), 9);
}

#[test]
fn agent_3x3_on_finished_board() {
    let mut b = board(&["XXX", "OOX", "XOO"]);
    assert_eq!(tic_tac_toe_3x3::SolutionAgent::solve(&mut b, Player::X, 0), (1, 0, 0));
    assert_eq!(tic_tac_toe_3x3::SolutionAgent::solve(&mut b, Player::O, 0), (-1, 0, 0));
}

#[test]
fn window_values() {
    assert_eq!(eval_window_weighted(&Cell::X, &Cell::X, &Cell::Empty, 10, 2), 10);
    assert_eq!(eval_window_weighted(&Cell::Empty, &Cell::O, &Cell::O, 10, 2), -10);
    assert_eq!(eval_window_weighted(&Cell::X, &Cell::Empty, &Cell::Empty, 10, 2), 2);
    assert_eq!(eval_window_weighted(&Cell::Empty, &Cell::Empty, &Cell::O, 10, 2), -2);
    assert_eq!(eval_window_weighted(&Cell::X, &Cell::O, &Cell::Empty, 10, 2), 0);
    assert_eq!(eval_window_weighted(&Cell::X, &Cell::Wall, &Cell::Empty, 10, 2), 0);
    assert_eq!(eval_window_weighted(&Cell::X, &Cell::X, &Cell::X, 10, 2), 0);
}

#[test]
fn alive_lines_avoid_walls() {
    let b = Board::new(5);
    assert_eq!(alive_lines_through(&b, 2, 2), 12);
    assert_eq!(alive_lines_through(&b, 0, 0), 3);
    let walled = board(&[".....", ".....", "..#..", ".....", "....."]);
    assert_eq!(alive_lines_through(&walled, 2, 1), 7);
}

#[test]
fn open_twos_are_counted() {
    let b = board(&["XX...", ".....", ".....", ".....", "....."]);
    assert_eq!(count_open_twos(&b, &Cell::X), 1);
    assert_eq!(count_open_twos(&b, &Cell::O), 0);
    let blocked = board(&["XXO..", ".....", ".....", ".....", "....."]);
    assert_eq!(count_open_twos(&blocked, &Cell::X), 0);
}

#[test]
fn heuristic_of_centre_piece() {
    let b = board(&[".....", ".....", "..X..", ".....", "....."]);
    let mut called = false;
    assert_eq!(heuristic(&b, &mut called), 36);
    assert!(called);
}

#[test]
fn heuristic_near_the_end_is_scaled_score() {
    let b = board(&["XXX", "OO.", "..."]);
    let mut called = false;
    assert_eq!(heuristic(&b, &mut called), 1000);
    assert!(called);
}

#[test]
fn moves_ordered_by_priority() {
    let mut b = board(&["XX.", "OO.", "..."]);
    let moves = b.moves();
    let ordered = order_moves(&mut b, moves, Player::X);
    // completing X's line and blocking O's line both swing the score by one
    assert_eq!(ordered.len(), 5);
    assert_eq!(ordered[0], (0, 2));
    assert_eq!(ordered[1], (1, 2));
    assert_eq!(b.get_cells(), &grid(&["XX.", "OO.", "..."]));
}

#[test]
fn agent_5x5_finishes_small_endgame_exactly() {
    let rows = ["XO.X", "OX.O", "X.XO", "OXO."];
    let mut b = board(&rows);
    let mut cells = grid(&rows);
    let expected = game_value(&mut cells, true);
    let r = tic_tac_toe_5x5::SolutionAgent::solve(&mut b, Player::X, 5000);
    assert_eq!(r.0, expected);
    assert_eq!(b.get_cells(), &grid(&rows));
    assert_eq!(b.cell(r.1, r.2), Cell::Empty);
}

#[test]
fn agent_5x5_returns_a_legal_move_on_open_board() {
    let mut b = board(&["..#..", ".....", "#....", ".....", "....#"]);
    let r = tic_tac_toe_5x5::SolutionAgent::solve(&mut b, Player::O, 300);
    assert_eq!(b.cell(r.1, r.2), Cell::Empty);
    assert_eq!(b.moves().len(), 22);
}

#[test]
fn agent_5x5_with_no_time_plays_first_move() {
    let mut b = Board::new(5);
    let r = tic_tac_toe_5x5::SolutionAgent::solve(&mut b, Player::X, 0);
    assert_eq!(b.cell(r.1, r.2), Cell::Empty);
    assert_eq!(r, (0, b.moves()[0].0, b.moves()[0].1));
    assert_eq!(r, (0, 0, 0));
}

#[test]
fn zero_sum_values_for_both_sides() {
    let rows = ["X.O", ".X.", "O.."];
    let mut b = board(&rows);
    let for_o = tic_tac_toe_3x3::minimax(&mut b, Player::O, Player::O, true);
    let for_x = tic_tac_toe_3x3::minimax(&mut b, Player::O, Player::X, false);
    assert_eq!(for_o.0, -for_x.0);
    assert_eq!(for_o.1, for_x.1);
    assert_eq!(b.get_cells(), &grid(&rows));
}

#[test]
fn deep_search_agrees_with_full_tree_agent() {
    let rows = ["XO.X", "OX.O", "X.XO", "OXO."];
    let mut a = board(&rows);
    let mut b = board(&rows);
    let deep = tic_tac_toe_5x5::SolutionAgent::solve(&mut a, Player::X, 5000);
    let full = tic_tac_toe_3x3::SolutionAgent::solve(&mut b, Player::X, 5000);
    assert_eq!(deep.0, full.0);
}

#[test]
fn alpha_beta_with_full_window_is_exact() {
    let rows = ["XO.X", "OX.O", "X.XO", "OXO."];
    let mut b = board(&rows);
    let deadline = Instant::now() + Duration::from_secs(60);
    let mut called = false;
    let r = tic_tac_toe_5x5::minimax(&mut b, Player::O, 4, i32::MIN, i32::MAX, &deadline, &mut called);
    let mut cells = grid(&rows);
    let (score, i, j) = r.expect("finished");
    assert_eq!(score, game_value(&mut cells, false));
    assert!(!called);
    assert_eq!(b.cell(i, j), Cell::Empty);
    assert_eq!(b.get_cells(), &grid(&rows));
}

#[test]
fn shallow_search_uses_the_evaluation() {
    let rows = ["XO.X", "OX.O", "X.XO", "OXO."];
    let mut b = board(&rows);
    let deadline = Instant::now() + Duration::from_secs(60);
    let mut called = false;
    let r = tic_tac_toe_5x5::minimax(&mut b, Player::X, 2, i32::MIN, i32::MAX, &deadline, &mut called);
    assert!(r.is_some());
    assert!(called);
}

#[test]
fn search_past_the_deadline_gives_up() {
    let mut b = Board::new(4);
    let deadline = Instant::now();
    let mut called = false;
    let r = tic_tac_toe_5x5::minimax(&mut b, Player::X, 3, i32::MIN, i32::MAX, &deadline, &mut called);
    assert!(r.is_none());
    assert!(!called);
    assert_eq!(b.moves().len(), 16);
}

fn swapped(rows: &[&str]) -> Board {
    let cells: Vec<Vec<Cell>> = grid(rows)
        .into_iter()
        .map(|r| {
            r.into_iter()
                .map(|c| match c {
                    Cell::X => Cell::O,
                    Cell::O => Cell::X,
                    other => other,
                })
                .collect()
        })
        .collect();
    Board::from_cells(cells).expect("square board")
}

#[test]
fn budget_is_nine_tenths_of_the_limit() {
    assert_eq!(budget_parts(1500), (1, 350_000_000));
    assert_eq!(budget_parts(10), (0, 9_000_000));
    assert_eq!(budget_parts(0), (0, 0));
    assert_eq!(budget_parts(10_000), (9, 0));
}

#[test]
fn deepening_stops_by_the_rule() {
    // no static evaluation: a deeper search finds nothing new
    assert!(!keep_deepening(false, 0, 100, 0));
    // the deadline has come
    assert!(!keep_deepening(true, 100, 100, 0));
    // three times the last search (20) fits in what remains (60)
    assert!(keep_deepening(true, 40, 100, 20));
    // three times the last search (21) does not fit in what remains (59)
    assert!(!keep_deepening(true, 41, 100, 20));
}

#[test]
fn swapping_players_trades_open_twos() {
    let rows = ["XX...", "..O..", "..O..", ".....", "X...."];
    let b = board(&rows);
    let s = swapped(&rows);
    assert_eq!(count_open_twos(&s, &Cell::O), count_open_twos(&b, &Cell::X));
    assert_eq!(count_open_twos(&s, &Cell::X), count_open_twos(&b, &Cell::O));
    assert_eq!(count_open_twos(&b, &Cell::X), 1);
}

#[test]
fn swapping_players_negates_the_heuristic() {
    let centre = [".....", ".....", "..X..", ".....", "....."];
    let mut called = false;
    assert_eq!(heuristic(&swapped(&centre), &mut called), -36);
    let rows = ["XX...", "..O..", "..O..", "#....", "X...O"];
    let mut f1 = false;
    let mut f2 = false;
    let h1 = heuristic(&board(&rows), &mut f1);
    let h2 = heuristic(&swapped(&rows), &mut f2);
    assert_eq!(h2, -h1);
    assert_ne!(h1, 0);
}

#[test]
fn search_on_finished_board_gives_the_score() {
    let rows = ["XXX", "OOX", "XOO"];
    let mut b = board(&rows);
    let deadline = Instant::now() + Duration::from_secs(60);
    let mut called = false;
    let r = tic_tac_toe_5x5::minimax(&mut b, Player::O, 3, i32::MIN, i32::MAX, &deadline, &mut called);
    assert_eq!(r, Some((b.score(), 0, 0)));
    assert!(!called);
}

#[test]
fn search_at_the_horizon_gives_the_evaluation() {
    let rows = [".....", ".....", "..X..", ".....", "....."];
    let mut b = board(&rows);
    let deadline = Instant::now() + Duration::from_secs(60);
    let mut called = false;
    let r = tic_tac_toe_5x5::minimax(&mut b, Player::O, 0, i32::MIN, i32::MAX, &deadline, &mut called);
    assert_eq!(r, Some((36, 0, 0)));
    assert!(called);
}

#[test]
fn node_past_the_deadline_gives_up() {
    let rows = ["XXX", "OOX", "XOO"];
    let mut b = board(&rows);
    let deadline = Instant::now() + Duration::from_secs(60);
    let mut called = false;
    let r = tic_tac_toe_5x5::search_node(&mut b, Player::X, 3, i32::MIN, i32::MAX, &deadline, &mut called, true);
    assert_eq!(r, None);
    assert!(!called);
}

#[test]
fn node_in_time_on_finished_board_and_horizon() {
    let done = ["XXX", "OOX", "XOO"];
    let mut b = board(&done);
    let deadline = Instant::now() + Duration::from_secs(60);
    let mut called = false;
    let r = tic_tac_toe_5x5::search_node(&mut b, Player::X, 3, i32::MIN, i32::MAX, &deadline, &mut called, false);
    assert_eq!(r, Some((1, 0, 0)));
    assert!(!called);

    let centre = [".....", ".....", "..X..", ".....", "....."];
    let mut c = board(&centre);
    let mut called2 = false;
    let r2 = tic_tac_toe_5x5::search_node(&mut c, Player::O, 0, i32::MIN, i32::MAX, &deadline, &mut called2, false);
    assert_eq!(r2, Some((36, 0, 0)));
    assert!(called2);
}

#[test]
fn node_in_time_searches_like_minimax() {
    let rows = ["XO.X", "OX.O", "X.XO", "OXO."];
    let mut b = board(&rows);
    let deadline = Instant::now() + Duration::from_secs(60);
    let mut c1 = false;
    let mut c2 = false;
    let a = tic_tac_toe_5x5::search_node(&mut b, Player::O, 4, i32::MIN, i32::MAX, &deadline, &mut c1, false);
    let m = tic_tac_toe_5x5::minimax(&mut b, Player::O, 4, i32::MIN, i32::MAX, &deadline, &mut c2);
    assert_eq!(a, m);
    let mut cells = grid(&rows);
    assert_eq!(a.expect("finished").0, game_value(&mut cells, false));
    assert_eq!(b.get_cells(), &grid(&rows));
}
