use sudoku_solver::board::{Field, SudBoard};
use sudoku_solver::order::open_cells_ordered;
use sudoku_solver::passes::{optimize, optimize_normal_sudoku, RuleResult};
use sudoku_solver::rules::{rule_block, rule_line_h, rule_line_v, rule_normal_sudoku, Rule};

const EASY: [i8; 81] = [
    0, 3, 0, 0, 1, 0, 0, 6, 0, //
    7, 5, 0, 0, 3, 0, 0, 4, 8, //
    0, 0, 6, 9, 8, 4, 3, 0, 0, //
    0, 0, 3, 0, 0, 0, 8, 0, 0, //
    9, 1, 2, 0, 0, 0, 6, 7, 4, //
    0, 0, 4, 0, 0, 0, 5, 0, 0, //
    0, 0, 1, 6, 7, 5, 2, 0, 0, //
    6, 8, 0, 0, 9, 0, 0, 1, 5, //
    0, 9, 0, 0, 4, 0, 0, 3, 0,
];

const FULL: [i8; 81] = [
    4, 3, 8, 5, 1, 7, 9, 6, 2, //
    7, 5, 9, 2, 3, 6, 1, 4, 8, //
    1, 2, 6, 9, 8, 4, 3, 5, 7, //
    5, 7, 3, 4, 6, 9, 8, 2, 1, //
    9, 1, 2, 8, 5, 3, 6, 7, 4, //
    8, 6, 4, 7, 2, 1, 5, 9, 3, //
    3, 4, 1, 6, 7, 5, 2, 8, 9, //
    6, 8, 7, 3, 9, 2, 4, 1, 5, //
    2, 9, 5, 1, 4, 8, 7, 3, 6,
];

fn grid(digits: &[i8]) -> SudBoard {
    SudBoard::new(digits).unwrap()
}

#[test]
fn line_h_looks_at_the_row() {
    let b = grid(&EASY);
    assert!(!rule_line_h(0, 3, &b));
    assert!(!rule_line_h(0, 1, &b));
    assert!(!rule_line_h(0, 6, &b));
    assert!(rule_line_h(0, 4, &b));
    assert!(rule_line_h(0, 7, &b));
    assert!(!rule_line_h(80, 9, &b));
    assert!(!rule_line_h(80, 3, &b));
    assert!(rule_line_h(80, 6, &b));
}

#[test]
fn line_v_looks_at_the_column() {
    let b = grid(&EASY);
    assert!(!rule_line_v(0, 7, &b));
    assert!(!rule_line_v(0, 9, &b));
    assert!(!rule_line_v(0, 6, &b));
    assert!(rule_line_v(0, 4, &b));
    assert!(rule_line_v(0, 3, &b));
    assert!(!rule_line_v(80, 8, &b));
    assert!(rule_line_v(80, 6, &b));
}

#[test]
fn block_looks_at_the_block() {
    let b = grid(&EASY);
    assert!(!rule_block(0, 6, &b));
    assert!(!rule_block(0, 7, &b));
    assert!(!rule_block(0, 5, &b));
    assert!(rule_block(0, 4, &b));
    assert!(rule_block(0, 9, &b));
    assert!(rule_block(40, 9, &b));
    assert!(!rule_block(80, 5, &b));
    assert!(!rule_block(80, 1, &b));
    assert!(rule_block(80, 6, &b));
}

#[test]
fn a_cell_does_not_exclude_its_own_digit() {
    let b = grid(&EASY);
    assert!(rule_line_h(1, 3, &b));
    assert!(rule_line_v(1, 3, &b));
    assert!(rule_block(1, 3, &b));
    assert!(rule_normal_sudoku(1, 3, &b));
    let full = grid(&FULL);
    for i in 0..81usize {
        assert!(rule_normal_sudoku(i, FULL[i], &full));
    }
}

#[test]
fn normal_sudoku_is_the_three_rules_together() {
    let b = grid(&EASY);
    for i in 0..81usize {
        for v in 1..=9i8 {
            let all = rule_line_h(i, v, &b) && rule_line_v(i, v, &b) && rule_block(i, v, &b);
            assert_eq!(rule_normal_sudoku(i, v, &b), all);
            assert_eq!(Rule::NormalSudoku.permits(i, v, &b), all);
            assert_eq!(Rule::LineH.permits(i, v, &b), rule_line_h(i, v, &b));
            assert_eq!(Rule::LineV.permits(i, v, &b), rule_line_v(i, v, &b));
            assert_eq!(Rule::Block.permits(i, v, &b), rule_block(i, v, &b));
        }
    }
    assert!(rule_normal_sudoku(0, 4, &b));
    assert!(!rule_normal_sudoku(0, 9, &b));
}

#[test]
fn open_cells_do_not_exclude_anything() {
    let mut b = grid(&[0i8; 81]);
    b.set(1, Field::Possible(vec![5]));
    assert!(rule_normal_sudoku(0, 5, &b));
    b.set(1, Field::Value(5));
    assert!(!rule_normal_sudoku(0, 5, &b));
}

#[test]
fn optimize_strikes_settled_digits_of_row_column_and_block() {
    let mut b = grid(&EASY);
    assert_eq!(optimize_normal_sudoku(&mut b), RuleResult::Changed);
    assert_eq!(*b.get(0), Field::Possible(vec![2, 4, 8]));
    assert_eq!(*b.get(1), Field::Value(3));
    assert_eq!(*b.get(2), Field::Possible(vec![8, 9]));
    assert_eq!(*b.get(3), Field::Possible(vec![2, 5, 7]));
    assert_eq!(*b.get(5), Field::Possible(vec![2, 7]));
    assert_eq!(*b.get(6), Field::Possible(vec![7, 9]));
    assert_eq!(*b.get(8), Field::Possible(vec![2, 7, 9]));
    assert_eq!(*b.get(80), Field::Possible(vec![6, 7]));
    let after = b.duplicate();
    assert_eq!(optimize_normal_sudoku(&mut b), RuleResult::Unchanged);
    assert_eq!(b, after);
}

#[test]
fn optimize_never_settles_a_cell() {
    let mut digits = FULL;
    digits[0] = 0;
    digits[10] = 0;
    digits[20] = 0;
    digits[40] = 0;
    let mut b = grid(&digits);
    assert_eq!(optimize(Rule::NormalSudoku, &mut b), RuleResult::Changed);
    assert_eq!(*b.get(0), Field::Possible(vec![4]));
    assert_eq!(*b.get(10), Field::Possible(vec![5]));
    assert_eq!(*b.get(20), Field::Possible(vec![6]));
    assert_eq!(*b.get(40), Field::Possible(vec![5]));
    assert!(!b.is_complete());
}

#[test]
fn optimize_by_single_rules() {
    let mut b = grid(&EASY);
    assert_eq!(optimize(Rule::LineH, &mut b), RuleResult::Changed);
    assert_eq!(*b.get(0), Field::Possible(vec![2, 4, 5, 7, 8, 9]));
    assert_eq!(optimize(Rule::LineV, &mut b), RuleResult::Changed);
    assert_eq!(*b.get(0), Field::Possible(vec![2, 4, 5, 8]));
    assert_eq!(optimize(Rule::Block, &mut b), RuleResult::Changed);
    assert_eq!(*b.get(0), Field::Possible(vec![2, 4, 8]));
    assert_eq!(optimize(Rule::LineH, &mut b), RuleResult::Unchanged);
    let mut whole = grid(&EASY);
    assert_eq!(optimize(Rule::NormalSudoku, &mut whole), RuleResult::Changed);
    assert_eq!(b, whole);
}

#[test]
fn optimize_keeps_the_order_of_the_candidates() {
    let mut b = grid(&[0i8; 81]);
    b.set(0, Field::Possible(vec![9, 1, 5, 3, 5, 7]));
    b.set(1, Field::Value(1));
    b.set(9, Field::Value(3));
    assert_eq!(optimize(Rule::NormalSudoku, &mut b), RuleResult::Changed);
    assert_eq!(*b.get(0), Field::Possible(vec![9, 5, 5, 7]));
}

#[test]
fn optimize_stops_at_the_first_cell_without_candidates() {
    let mut digits = FULL;
    digits[10] = 0;
    digits[11] = 5;
    digits[40] = 0;
    digits[80] = 0;
    let mut b = grid(&digits);
    assert_eq!(optimize(Rule::NormalSudoku, &mut b), RuleResult::Impossible);
    assert_eq!(*b.get(10), Field::Possible(vec![]));
    assert_eq!(*b.get(40), Field::Possible(vec![1, 2, 3, 4, 5, 6, 7, 8, 9]));
    assert_eq!(*b.get(80), Field::Possible(vec![1, 2, 3, 4, 5, 6, 7, 8, 9]));
    assert_eq!(*b.get(11), Field::Value(5));
}

#[test]
fn optimize_narrows_the_cells_before_the_stuck_one() {
    let mut digits = FULL;
    digits[0] = 0;
    digits[10] = 0;
    digits[11] = 5;
    let mut b = grid(&digits);
    assert_eq!(optimize(Rule::NormalSudoku, &mut b), RuleResult::Impossible);
    assert_eq!(*b.get(0), Field::Possible(vec![4]));
    assert_eq!(*b.get(10), Field::Possible(vec![]));
}

#[test]
fn optimize_finds_an_empty_cell_impossible_even_if_nothing_is_struck() {
    let mut b = grid(&[0i8; 81]);
    b.set(5, Field::Possible(vec![]));
    assert_eq!(optimize(Rule::LineH, &mut b), RuleResult::Impossible);
}

#[test]
fn optimize_leaves_a_complete_board_alone() {
    let mut b = grid(&FULL);
    assert_eq!(optimize(Rule::NormalSudoku, &mut b), RuleResult::Unchanged);
    assert_eq!(b, grid(&FULL));
    let mut digits = FULL;
    digits[1] = digits[2];
    let mut bad = grid(&digits);
    assert_eq!(optimize(Rule::NormalSudoku, &mut bad), RuleResult::Unchanged);
    assert_eq!(bad, grid(&digits));
}

#[test]
fn open_cells_come_fewest_candidates_first() {
    let mut b = grid(&EASY);
    assert_eq!(optimize_normal_sudoku(&mut b), RuleResult::Changed);
    let order = open_cells_ordered(&b);
    let expected: Vec<usize> = vec![
        11, 12, 19, 27, 40, 45, 55, 62, 65, 78, 2, 5, 6, 14, 15, 18, 25, 28, 34, 41, 46, 49, 52,
        54, 61, 66, 68, 69, 72, 74, 80, 0, 3, 8, 26, 31, 35, 39, 75, 77, 53, 30, 32, 48, 50,
    ];
    assert_eq!(order, expected);
}

#[test]
fn open_cells_of_special_boards() {
    assert_eq!(open_cells_ordered(&grid(&FULL)), Vec::<usize>::new());
    let all: Vec<usize> = (0..81).collect();
    assert_eq!(open_cells_ordered(&grid(&[0i8; 81])), all);
    let mut b = grid(&FULL);
    b.set(7, Field::Possible(vec![1, 2, 3]));
    b.set(30, Field::Possible(vec![]));
    b.set(60, Field::Possible(vec![4, 5, 6]));
    b.set(70, Field::Possible(vec![8]));
    assert_eq!(open_cells_ordered(&b), vec![30, 70, 7, 60]);
}
