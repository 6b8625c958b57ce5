use runikraft::rkinput::{self, PointerState};
use runikraft::rklock::semaphore::Semaphore;
use runikraft::sudoku::{
    add_num, del_num, findnext_empty, game_step, hint, hole_dig, if_fit_check, row_random, sudoku_copy,
    sudoku_init_zero, sudoku_setzero, sudoku_solve, GameAction, Grid,
};
use runikraft::sudoku_input::{
    input_handler, InputAction, InputEvent, InputState, EV_KEY, KEY_1, KEY_BACKSPACE, KEY_D, KEY_DOWN, KEY_H,
    KEY_O, KEY_RIGHT, KEY_UP, KEY_W, NO_INPUT, SELECT_INPUT,
};

fn valid_full(m: &Grid) -> bool {
    for i in 0..9 {
        for j in 0..9 {
            let v = m[i][j];
            if v < 1 || v > 9 {
                return false;
            }
            for a in 0..9 {
                for b in 0..9 {
                    let peer = (a, b) != (i, j) && (a == i || b == j || (a / 3 == i / 3 && b / 3 == j / 3));
                    if peer && m[a][b] == v {
                        return false;
                    }
                }
            }
        }
    }
    true
}

fn filled(m: &Grid) -> usize {
    m.iter().map(|r| r.iter().filter(|&&v| v != 0).count()).sum()
}

fn solved_grid() -> Grid {
    let mut m = [[0usize; 9]; 9];
    assert!(sudoku_solve(&mut m, 0, 0, 0));
    m
}

fn key(code: u16) -> InputEvent {
    InputEvent { event_type: EV_KEY, code, value: 1 }
}

#[test]
fn a_new_game_is_empty() {
    let s = sudoku_init_zero();
    assert_eq!(s.map, [[0; 9]; 9]);
    assert_eq!(s.tag, [[0; 9]; 9]);
}

#[test]
fn copy_and_clear() {
    let m = solved_grid();
    let mut c = [[0usize; 9]; 9];
    sudoku_copy(&mut c, &m);
    assert_eq!(c, m);
    sudoku_setzero(&mut c);
    assert_eq!(c, [[0; 9]; 9]);
}

#[test]
fn the_solver_fills_an_empty_grid() {
    let m = solved_grid();
    assert!(valid_full(&m));
    assert_eq!(m[0], [1, 2, 3, 4, 5, 6, 7, 8, 9]);
}

#[test]
fn the_solver_keeps_given_digits() {
    let mut m = [[0usize; 9]; 9];
    m[0][5] = 5;
    m[4][4] = 1;
    m[8][8] = 9;
    assert!(sudoku_solve(&mut m, 0, 0, 0));
    assert!(valid_full(&m));
    assert_eq!((m[0][5], m[4][4], m[8][8]), (5, 1, 9));
}

#[test]
fn the_solver_fails_where_nothing_fits() {
    let mut m = [[0usize; 9]; 9];
    for j in 0..8 {
        m[0][j] = j + 1;
    }
    m[1][8] = 9;
    let before = m;
    assert!(!sudoku_solve(&mut m, 0, 8, 0));
    assert_eq!(m, before);
}

#[test]
fn first_empty_cell_is_found() {
    let mut m = solved_grid();
    let (mut r, mut c) = (100, 100);
    assert!(!findnext_empty(&m, 0, &mut r, &mut c));
    assert_eq!((r, c), (100, 100));
    m[3][7] = 0;
    m[6][1] = 0;
    assert!(findnext_empty(&m, 0, &mut r, &mut c));
    assert_eq!((r, c), (3, 7));
    assert!(findnext_empty(&m, 4, &mut r, &mut c));
    assert_eq!((r, c), (6, 1));
}

#[test]
fn fit_check_sees_row_column_and_box() {
    let mut m = [[0usize; 9]; 9];
    m[0][5] = 4;
    m[7][2] = 6;
    m[1][1] = 8;
    assert!(!if_fit_check(&m, 0, 0, 4, true));
    assert!(!if_fit_check(&m, 3, 2, 6, true));
    assert!(!if_fit_check(&m, 2, 2, 8, true));
    assert!(if_fit_check(&m, 2, 2, 5, true));
    assert!(!if_fit_check(&m, 0, 5, 3, true));
    assert!(if_fit_check(&m, 0, 5, 3, false));
}

#[test]
fn writing_and_erasing_numbers() {
    let mut m = [[0usize; 9]; 9];
    let tag = [[0usize; 9]; 9];
    let mut errors = Semaphore::new(0);
    assert!(add_num(&mut m, 2, 3, 7, true, &mut errors));
    assert_eq!(m[2][3], 7);
    assert_eq!(errors.count(), 0);
    assert!(!add_num(&mut m, 2, 5, 7, true, &mut errors));
    assert_eq!(errors.count(), 1);
    assert!(add_num(&mut m, 2, 5, 7, false, &mut errors));
    assert!(!add_num(&mut m, 2, 3, 1, true, &mut errors));
    assert!(!add_num(&mut m, 0, 0, 10, true, &mut errors));
    assert_eq!(errors.count(), 3);
    assert!(!add_num(&mut m, 9, 0, 1, true, &mut errors));
    assert_eq!(errors.count(), 3);
    assert!(del_num(&mut m, &tag, 2, 3));
    assert_eq!(m[2][3], 0);
    assert!(!del_num(&mut m, &tag, 2, 3));
    assert!(!del_num(&mut m, &tag, 9, 9));
}

#[test]
fn puzzle_digits_cannot_be_erased() {
    let mut m = [[0usize; 9]; 9];
    let mut tag = [[0usize; 9]; 9];
    m[4][4] = 3;
    tag[4][4] = 1;
    assert!(!del_num(&mut m, &tag, 4, 4));
    assert_eq!(m[4][4], 3);
}

#[test]
fn written_then_erased_gives_the_grid_back() {
    let mut m = solved_grid();
    m[5][5] = 0;
    let before = m;
    let tag = [[0usize; 9]; 9];
    let mut errors = Semaphore::new(0);
    let v = solved_grid()[5][5];
    assert!(add_num(&mut m, 5, 5, v, true, &mut errors));
    assert!(del_num(&mut m, &tag, 5, 5));
    assert_eq!(m, before);
}

#[test]
fn random_rows_are_permutations() {
    let mut m = [[0usize; 9]; 9];
    row_random(&mut m, 4, &[5, 17, 3, 99, 0, 8, 41, 2, 7]);
    let mut r = m[4];
    r.sort();
    assert_eq!(r, [1, 2, 3, 4, 5, 6, 7, 8, 9]);
    assert_eq!(m[3], [0; 9]);
    row_random(&mut m, 0, &[0; 9]);
    assert_eq!(m[0], [9, 1, 2, 3, 4, 5, 6, 7, 8]);
}

#[test]
fn digging_keeps_the_asked_number_of_digits() {
    let mut m = solved_grid();
    let full = m;
    let mut tag = [[0usize; 9]; 9];
    let draws: Vec<usize> = (0..100).map(|k| k * 37 + 11).collect();
    hole_dig(&mut m, 15, &mut tag, &draws);
    assert_eq!(filled(&m), 15);
    for i in 0..9 {
        for j in 0..9 {
            if m[i][j] != 0 {
                assert_eq!(m[i][j], full[i][j]);
                assert_eq!(tag[i][j], 1);
            }
        }
    }
    let mut m2 = full;
    let mut tag2 = [[0usize; 9]; 9];
    hole_dig(&mut m2, 3, &mut tag2, &draws);
    assert_eq!(filled(&m2), 10);
    let mut m3 = full;
    let mut tag3 = [[0usize; 9]; 9];
    hole_dig(&mut m3, 81, &mut tag3, &draws);
    assert_eq!(m3, full);
    assert_eq!(tag3, [[1; 9]; 9]);
    for (n, kept) in [(100usize, 19usize), (90, 10), (162, 10)] {
        let mut m4 = full;
        let mut tag4 = [[0usize; 9]; 9];
        hole_dig(&mut m4, n, &mut tag4, &draws);
        assert_eq!(filled(&m4), kept);
    }
}

#[test]
fn digging_takes_cells_going_round_from_the_draw() {
    let full = solved_grid();
    let mut m = full;
    let mut tag = [[0usize; 9]; 9];
    let mut draws = vec![80usize, 80, 161];
    draws.extend(7..14);
    hole_dig(&mut m, 10, &mut tag, &draws);
    assert_eq!(m[8][8], full[8][8]);
    assert_eq!(m[0][0], full[0][0]);
    assert_eq!(m[0][1], full[0][1]);
    assert_eq!(m[0][2], 0);
    for k in 7..14 {
        assert_eq!(m[k / 9][k % 9], full[k / 9][k % 9]);
    }
    assert_eq!(filled(&m), 10);
}

#[test]
fn a_hint_fills_one_cell_of_the_solution() {
    let sol = solved_grid();
    let mut m = sol;
    m[0][0] = 0;
    m[8][8] = 0;
    let mut errors = Semaphore::new(0);
    let r = hint(&mut m, &mut errors);
    assert_eq!(r, Some((0, 0, sol[0][0])));
    assert_eq!(m[0][0], sol[0][0]);
    let r = hint(&mut m, &mut errors);
    assert_eq!(r, Some((8, 8, sol[8][8])));
    assert_eq!(hint(&mut m, &mut errors), None);
    assert_eq!(m, sol);
}

#[test]
fn a_hint_fills_the_first_empty_cell() {
    let sol = solved_grid();
    let mut m = sol;
    m[5][0] = 0;
    m[0][7] = 0;
    let mut errors = Semaphore::new(0);
    assert_eq!(hint(&mut m, &mut errors), Some((0, 7, sol[0][7])));
    assert_eq!(m[5][0], 0);
    assert_eq!(errors.count(), 0);
}

#[test]
fn a_hint_fails_without_a_solution() {
    let mut m = [[0usize; 9]; 9];
    for j in 0..8 {
        m[0][j] = j + 1;
    }
    m[1][8] = 9;
    let before = m;
    let mut errors = Semaphore::new(0);
    assert_eq!(hint(&mut m, &mut errors), None);
    assert_eq!(m, before);
}

#[test]
fn a_hint_takes_the_least_digit() {
    let mut m = [[0usize; 9]; 9];
    let mut errors = Semaphore::new(0);
    assert_eq!(hint(&mut m, &mut errors), Some((0, 0, 1)));
    assert_eq!(m[0][0], 1);
}

#[test]
fn a_game_turn_writes_the_pending_digit() {
    let mut s = sudoku_init_zero();
    let mut errors = Semaphore::new(0);
    let act = game_step(&mut s, 4, 150, 75, &mut errors);
    assert!(matches!(act, GameAction::ShowNumber(2, 1, 4)));
    assert_eq!(s.map[2][1], 4);
    let act = game_step(&mut s, 4, 150, 150, &mut errors);
    assert!(matches!(act, GameAction::Nothing));
    assert_eq!(errors.count(), 1);
    let act = game_step(&mut s, 0, 150, 75, &mut errors);
    assert!(matches!(act, GameAction::ShowNumber(2, 1, 0)));
    assert_eq!(s.map[2][1], 0);
    let act = game_step(&mut s, NO_INPUT, 150, 75, &mut errors);
    assert!(matches!(act, GameAction::Nothing));
}

#[test]
fn a_game_turn_solves_or_hints() {
    let mut s = sudoku_init_zero();
    let mut errors = Semaphore::new(0);
    let act = game_step(&mut s, KEY_O as usize, 0, 0, &mut errors);
    assert!(matches!(act, GameAction::ShowAll));
    assert!(valid_full(&s.map));
    s.map[3][3] = 0;
    let act = game_step(&mut s, KEY_H as usize, 0, 0, &mut errors);
    assert!(matches!(act, GameAction::ShowHint(3, 3, _)));
    assert!(valid_full(&s.map));
}

#[test]
fn keys_move_the_cursor_within_the_screen() {
    let mut st = InputState { cursor_x: 5, cursor_y: 1, select_x: 0, select_y: 0, input_number: NO_INPUT };
    let act = input_handler(&mut st, key(KEY_RIGHT), 6, 10);
    assert!(matches!(act, InputAction::Cursor(5, 1)) || matches!(act, InputAction::Stay));
    assert_eq!(st.cursor_x, 5);
    let act = input_handler(&mut st, key(KEY_UP), 6, 10);
    assert!(matches!(act, InputAction::Stay));
    assert_eq!(st.cursor_y, 1);
    let act = input_handler(&mut st, key(KEY_DOWN), 6, 10);
    assert!(matches!(act, InputAction::Cursor(5, 2)));
    let released = InputEvent { event_type: EV_KEY, code: KEY_DOWN, value: 0 };
    assert!(matches!(input_handler(&mut st, released, 6, 10), InputAction::Stay));
    assert_eq!(st.cursor_y, 2);
}

#[test]
fn keys_move_the_selection_and_set_the_number() {
    let mut st = InputState { cursor_x: 0, cursor_y: 0, select_x: 0, select_y: 0, input_number: NO_INPUT };
    let act = input_handler(&mut st, key(KEY_D), 800, 800);
    assert!(matches!(act, InputAction::Select(0, 0, 75, 0)));
    assert_eq!(st.input_number, SELECT_INPUT);
    let act = input_handler(&mut st, key(KEY_W), 800, 800);
    assert!(matches!(act, InputAction::Stay));
    input_handler(&mut st, key(KEY_1 + 4), 800, 800);
    assert_eq!(st.input_number, 5);
    input_handler(&mut st, key(KEY_BACKSPACE), 800, 800);
    assert_eq!(st.input_number, 0);
    input_handler(&mut st, key(KEY_H), 800, 800);
    assert_eq!(st.input_number, KEY_H as usize);
}

#[test]
fn the_plain_handler_moves_cursor_and_square() {
    let mut st = PointerState::new();
    assert!(rkinput::input_handler(&mut st, key(KEY_UP), 800, 600));
    assert_eq!((st.cursor_x, st.cursor_y), (100, 99));
    assert!(rkinput::input_handler(&mut st, key(KEY_D), 800, 600));
    assert_eq!((st.select_x, st.select_y), (76, 1));
    assert!(rkinput::input_handler(&mut st, key(KEY_W), 800, 600));
    assert_eq!(st.select_y, 1);
    let released = InputEvent { event_type: EV_KEY, code: KEY_UP, value: 0 };
    assert!(!rkinput::input_handler(&mut st, released, 800, 600));
    assert_eq!(st.cursor_y, 99);
}
