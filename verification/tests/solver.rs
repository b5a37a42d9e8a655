use sudoku_solver::board::{Field, SudBoard};
use sudoku_solver::rules::Rule;
use sudoku_solver::solver::SudokuSolver;

const ANSWER: [i8; 81] = [
    4, 3, 8, 5, 1, 7, 9, 6, 2, //
    7, 5, 9, 2, 3, 6, 1, 4, 8, //
    1, 2, 6, 9, 8, 4, 3, 5, 7, //
    5, 7, 3, 4, 6, 9, 8, 2, 1, //
    9, 1, 2, 8, 5, 3, 6, 7, 4, //
    8, 6, 4, 7, 2, 1, 5, 9, 3, //
    3, 4, 1, 6, 7, 5, 2, 8, 9, //
    6, 8, 7, 3, 9, 2, 4, 1, 5, //
    2, 9, 5, 1, 4, 8, 7, 3, 6,
];

const OTHER_ANSWER: [i8; 81] = [
    8, 3, 4, 5, 1, 7, 9, 6, 2, //
    7, 5, 9, 2, 3, 6, 1, 4, 8, //
    1, 2, 6, 9, 8, 4, 3, 5, 7, //
    5, 7, 3, 4, 6, 9, 8, 2, 1, //
    9, 1, 2, 8, 5, 3, 6, 7, 4, //
    4, 6, 8, 7, 2, 1, 5, 9, 3, //
    3, 4, 1, 6, 7, 5, 2, 8, 9, //
    6, 8, 7, 3, 9, 2, 4, 1, 5, //
    2, 9, 5, 1, 4, 8, 7, 3, 6,
];

const PUZZLE: [i8; 81] = [
    0, 3, 0, 0, 1, 0, 0, 6, 0, //
    7, 5, 0, 0, 3, 0, 0, 4, 8, //
    0, 0, 6, 9, 8, 4, 3, 0, 0, //
    0, 0, 3, 0, 0, 0, 8, 0, 0, //
    9, 1, 2, 0, 0, 0, 6, 7, 4, //
    0, 0, 4, 0, 0, 0, 5, 0, 0, //
    0, 0, 1, 6, 7, 5, 2, 0, 0, //
    6, 8, 0, 0, 9, 0, 0, 1, 5, //
    0, 9, 0, 0, 4, 0, 0, 3, 0,
];

fn settled(digits: &[i8; 81]) -> SudBoard {
    SudBoard::new(digits).unwrap()
}

fn two_answers() -> [i8; 81] {
    let mut digits = ANSWER;
    digits[0] = 0;
    digits[2] = 0;
    digits[45] = 0;
    digits[47] = 0;
    digits
}

fn digit_of(b: &SudBoard, i: usize) -> i8 {
    match b.get(i) {
        Field::Value(v) => *v,
        Field::Possible(_) => panic!("open cell {}", i),
    }
}

fn each_digit_once(b: &SudBoard, cells: &[usize]) -> bool {
    let mut seen = [0usize; 10];
    for &c in cells {
        let d = digit_of(b, c);
        if d < 1 || d > 9 {
            return false;
        }
        seen[d as usize] += 1;
    }
    (1..=9).all(|d| seen[d] == 1)
}

fn is_solved(b: &SudBoard) -> bool {
    if b.state.len() != 81 || !b.is_complete() {
        return false;
    }
    for u in 0..9usize {
        let row: Vec<usize> = (0..9).map(|k| u * 9 + k).collect();
        let col: Vec<usize> = (0..9).map(|k| k * 9 + u).collect();
        let block: Vec<usize> =
            (0..9).map(|k| (u / 3 * 3 + k / 3) * 9 + u % 3 * 3 + k % 3).collect();
        if !each_digit_once(b, &row) || !each_digit_once(b, &col) || !each_digit_once(b, &block) {
            return false;
        }
    }
    true
}

#[test]
fn new_starts_with_the_root_frame_only() {
    let s = SudokuSolver::new(PUZZLE, vec![Rule::NormalSudoku]);
    assert_eq!(s.stack_size(), 1);
    assert_eq!(s.solutions().len(), 0);
    assert_eq!(s.dead_end_count(), 0);
    assert!(s.first_sol_time().is_none());
    assert_eq!(*s.top(), settled(&PUZZLE));
    assert_eq!(*s.top().get(0), Field::Possible(vec![1, 2, 3, 4, 5, 6, 7, 8, 9]));
    assert_eq!(*s.top().get(1), Field::Value(3));
}

#[test]
fn set_and_top_mut_change_the_frame_at_work() {
    let mut s = SudokuSolver::new(PUZZLE, vec![Rule::NormalSudoku]);
    s.set(0, Field::Value(4));
    assert_eq!(*s.top().get(0), Field::Value(4));
    assert_eq!(*s.top().get(1), Field::Value(3));
    s.top_mut().set(2, Field::Possible(vec![8, 9]));
    assert_eq!(*s.top().get(2), Field::Possible(vec![8, 9]));
    assert_eq!(s.stack_size(), 1);
    *s.top_mut() = settled(&ANSWER);
    assert_eq!(*s.top(), settled(&ANSWER));
}

#[test]
fn pop_records_only_when_asked() {
    let mut s = SudokuSolver::new(PUZZLE, vec![Rule::NormalSudoku]);
    s.pop(false);
    assert_eq!(s.stack_size(), 0);
    assert_eq!(s.dead_end_count(), 0);
    s.pop(true);
    assert_eq!(s.stack_size(), 0);
    assert_eq!(s.dead_end_count(), 0);
    let mut t = SudokuSolver::new(PUZZLE, vec![Rule::NormalSudoku]);
    t.pop(true);
    assert_eq!(t.stack_size(), 0);
    assert_eq!(t.dead_end_count(), 1);
    assert_eq!(t.solutions().len(), 0);
}

#[test]
fn solve_reports_a_round_that_struck_candidates() {
    let mut s = SudokuSolver::new(PUZZLE, vec![Rule::NormalSudoku]);
    assert!(s.solve());
    assert_eq!(s.stack_size(), 1);
    assert_eq!(s.solutions().len(), 0);
    assert_eq!(s.dead_end_count(), 0);
    assert_eq!(*s.top().get(0), Field::Possible(vec![2, 4, 8]));
    assert_eq!(*s.top().get(80), Field::Possible(vec![6, 7]));
    assert!(!s.solve());
    assert_eq!(s.stack_size(), 0);
    assert_eq!(s.solutions().len(), 1);
    assert_eq!(s.dead_end_count(), 984);
}

#[test]
fn solve_gives_up_an_impossible_board_at_once() {
    let mut digits = ANSWER;
    digits[0] = 0;
    digits[1] = 4;
    let mut s = SudokuSolver::new(digits, vec![Rule::NormalSudoku]);
    assert!(!s.solve());
    assert_eq!(s.stack_size(), 0);
    assert_eq!(s.solutions().len(), 0);
    assert_eq!(s.dead_end_count(), 1);
}

#[test]
fn a_round_ends_at_the_pass_that_finds_the_board_impossible() {
    let mut digits = [0i8; 81];
    digits[0] = 1;
    let mut s = SudokuSolver::new(digits, vec![Rule::LineH, Rule::LineV]);
    s.set(1, Field::Possible(vec![1]));
    s.set(9, Field::Possible(vec![1, 2]));
    let mut t = SudokuSolver::new(digits, vec![Rule::LineV]);
    t.set(1, Field::Possible(vec![1]));
    t.set(9, Field::Possible(vec![1, 2]));
    assert!(!s.solve());
    assert_eq!(s.stack_size(), 0);
    assert_eq!(s.dead_end_count(), 1);
    assert_eq!(s.solutions().len(), 0);
    assert!(t.solve());
    assert_eq!(*t.top().get(9), Field::Possible(vec![2]));
    assert_eq!(*t.top().get(1), Field::Possible(vec![1]));
}

#[test]
fn push_on_a_complete_board_records_it_once() {
    let mut s = SudokuSolver::new(ANSWER, vec![Rule::NormalSudoku]);
    s.push();
    assert_eq!(s.stack_size(), 1);
    assert_eq!(s.solutions().len(), 1);
    assert_eq!(s.dead_end_count(), 0);
    let first = s.first_sol_time();
    assert!(first.is_some());
    s.push();
    assert_eq!(s.stack_size(), 1);
    assert_eq!(s.solutions().len(), 1);
    assert_eq!(s.dead_end_count(), 0);
    assert_eq!(s.first_sol_time(), first);
    assert_eq!(s.solutions()[0], settled(&ANSWER));
}

#[test]
fn complete_puzzle_is_its_own_single_solution() {
    let mut s = SudokuSolver::new(ANSWER, vec![Rule::NormalSudoku]);
    s.solve_loop();
    assert_eq!(s.stack_size(), 0);
    assert_eq!(s.solutions().len(), 1);
    assert_eq!(s.solutions()[0], settled(&ANSWER));
    assert!(is_solved(&s.solutions()[0]));
    assert_eq!(s.dead_end_count(), 1);
    let first = s.first_sol_time().unwrap();
    assert!(first >= s.start_time());
}

#[test]
fn complete_puzzle_is_not_checked_against_the_rules() {
    let mut digits = ANSWER;
    digits[1] = digits[2];
    let mut s = SudokuSolver::new(digits, vec![Rule::NormalSudoku]);
    s.solve_loop();
    assert_eq!(s.solutions().len(), 1);
    assert_eq!(s.solutions()[0], settled(&digits));
    assert!(!is_solved(&s.solutions()[0]));
    assert_eq!(s.dead_end_count(), 1);
}

#[test]
fn contradictory_puzzle_has_no_solution_and_one_dead_end() {
    let mut digits = ANSWER;
    digits[0] = 0;
    digits[1] = digits[2];
    digits[3] = 4;
    assert_eq!(&digits[0..9], &[0, 8, 8, 4, 1, 7, 9, 6, 2]);
    let mut s = SudokuSolver::new(digits, vec![Rule::NormalSudoku]);
    s.solve_loop();
    assert_eq!(s.stack_size(), 0);
    assert_eq!(s.solutions().len(), 0);
    assert_eq!(s.dead_end_count(), 1);
    assert!(s.first_sol_time().is_none());
}

#[test]
fn puzzle_without_solution_has_none() {
    let mut digits = ANSWER;
    digits[0] = 0;
    digits[1] = 4;
    let mut s = SudokuSolver::new(digits, vec![Rule::NormalSudoku]);
    s.solve_loop();
    assert_eq!(s.solutions().len(), 0);
    assert_eq!(s.dead_end_count(), 1);
    assert_eq!(s.stack_size(), 0);
}

#[test]
fn repeated_digit_in_a_row_can_still_lead_to_a_board() {
    let mut digits = ANSWER;
    digits[0] = 0;
    digits[1] = digits[2];
    let mut s = SudokuSolver::new(digits, vec![Rule::NormalSudoku]);
    s.solve_loop();
    assert_eq!(s.solutions().len(), 1);
    let mut filled = digits;
    filled[0] = 4;
    assert_eq!(s.solutions()[0], settled(&filled));
    assert!(!is_solved(&s.solutions()[0]));
    assert_eq!(s.dead_end_count(), 2);
}

#[test]
fn puzzle_with_one_solution_yields_it() {
    let mut s = SudokuSolver::new(PUZZLE, vec![Rule::NormalSudoku]);
    s.solve_loop();
    assert_eq!(s.stack_size(), 0);
    assert_eq!(s.solutions().len(), 1);
    assert_eq!(s.solutions()[0], settled(&ANSWER));
    assert!(is_solved(&s.solutions()[0]));
    assert_eq!(s.dead_end_count(), 984);
    assert!(s.first_sol_time().unwrap() >= s.start_time());
}

#[test]
fn puzzle_with_two_solutions_yields_both() {
    let mut s = SudokuSolver::new(two_answers(), vec![Rule::NormalSudoku]);
    s.solve_loop();
    assert_eq!(s.stack_size(), 0);
    assert_eq!(s.solutions().len(), 2);
    assert_eq!(s.solutions()[0], settled(&ANSWER));
    assert_eq!(s.solutions()[1], settled(&OTHER_ANSWER));
    assert!(s.solutions()[0] != s.solutions()[1]);
    assert!(is_solved(&s.solutions()[0]));
    assert!(is_solved(&s.solutions()[1]));
    assert_eq!(s.dead_end_count(), 11);
}

#[test]
fn three_single_rules_do_what_the_full_rule_does() {
    let mut s = SudokuSolver::new(two_answers(), vec![Rule::LineH, Rule::LineV, Rule::Block]);
    s.solve_loop();
    assert_eq!(s.solutions().len(), 2);
    assert_eq!(s.solutions()[0], settled(&ANSWER));
    assert_eq!(s.solutions()[1], settled(&OTHER_ANSWER));
    assert_eq!(s.dead_end_count(), 11);
    let mut t = SudokuSolver::new(PUZZLE, vec![Rule::Block, Rule::LineV, Rule::LineH]);
    t.solve_loop();
    assert_eq!(t.solutions().len(), 1);
    assert_eq!(t.solutions()[0], settled(&ANSWER));
    assert_eq!(t.dead_end_count(), 984);
}

#[test]
fn rows_alone_let_boards_through_that_break_the_other_rules() {
    let mut s = SudokuSolver::new(two_answers(), vec![Rule::LineH]);
    s.solve_loop();
    assert_eq!(s.solutions().len(), 4);
    assert_eq!(s.dead_end_count(), 13);
    let solved: Vec<bool> = s.solutions().iter().map(is_solved).collect();
    assert_eq!(solved, vec![false, true, true, false]);
    assert_eq!(s.solutions()[1], settled(&ANSWER));
    assert_eq!(s.solutions()[2], settled(&OTHER_ANSWER));
}

#[test]
fn solutions_are_pairwise_different_and_solved() {
    let mut digits = ANSWER;
    for i in [0usize, 2, 45, 47, 6, 8, 60, 62] {
        digits[i] = 0;
    }
    let mut s = SudokuSolver::new(digits, vec![Rule::NormalSudoku]);
    s.solve_loop();
    let found = s.solutions();
    assert_eq!(found.len(), 4);
    for a in 0..found.len() {
        assert!(is_solved(&found[a]));
        assert!(found[a].is_inside(&settled(&digits)));
        for i in 0..81usize {
            if digits[i] != 0 {
                assert_eq!(*found[a].get(i), Field::Value(digits[i]));
            }
        }
        for b in (a + 1)..found.len() {
            assert!(found[a] != found[b]);
            assert!(!found[a].same_as(&found[b]));
        }
    }
    assert!(s.dead_end_count() >= 1);
}

#[test]
fn first_solution_time_is_taken_once() {
    let mut s = SudokuSolver::new(two_answers(), vec![Rule::NormalSudoku]);
    assert!(s.first_sol_time().is_none());
    s.solve_loop();
    let first = s.first_sol_time().unwrap();
    assert!(first >= s.start_time());
    assert!(first <= std::time::Instant::now());
}

fn may_stand(grid: &[i8; 81], at: usize, v: i8) -> bool {
    for other in 0..81usize {
        if other == at || grid[other] != v {
            continue;
        }
        let same_row = other / 9 == at / 9;
        let same_col = other % 9 == at % 9;
        let same_block = other / 27 == at / 27 && other % 9 / 3 == at % 9 / 3;
        if same_row || same_col || same_block {
            return false;
        }
    }
    true
}

fn fill_in(grid: &mut [i8; 81], from: usize, out: &mut Vec<[i8; 81]>) {
    let mut at = from;
    while at < 81 && grid[at] != 0 {
        at += 1;
    }
    if at == 81 {
        out.push(*grid);
        return;
    }
    for v in 1..=9i8 {
        if may_stand(grid, at, v) {
            grid[at] = v;
            fill_in(grid, at + 1, out);
            grid[at] = 0;
        }
    }
}

fn by_trial(puzzle: &[i8; 81]) -> Vec<[i8; 81]> {
    let mut grid = *puzzle;
    let mut out = Vec::new();
    fill_in(&mut grid, 0, &mut out);
    out
}

fn thinned(modulus: usize, below: usize, shift: usize) -> [i8; 81] {
    let mut digits = ANSWER;
    for i in 0..81usize {
        if (i * 7 + shift * 5) % modulus < below {
            digits[i] = 0;
        }
    }
    digits
}

fn assert_finds_exactly_what_trial_finds(puzzle: [i8; 81], count: usize) {
    let expected = by_trial(&puzzle);
    assert_eq!(expected.len(), count);
    let mut s = SudokuSolver::new(puzzle, vec![Rule::NormalSudoku]);
    s.solve_loop();
    let found = s.solutions();
    assert_eq!(found.len(), count);
    for e in expected.iter() {
        let board = settled(e);
        assert_eq!(found.iter().filter(|b| **b == board).count(), 1);
    }
    for b in found.iter() {
        assert!(is_solved(b));
    }
}

#[test]
fn search_finds_every_solution_of_small_puzzles() {
    assert_finds_exactly_what_trial_finds(ANSWER, 1);
    assert_finds_exactly_what_trial_finds(PUZZLE, 1);
    assert_finds_exactly_what_trial_finds(two_answers(), 2);
    let mut digits = ANSWER;
    for i in [0usize, 2, 45, 47, 6, 8, 60, 62] {
        digits[i] = 0;
    }
    assert_finds_exactly_what_trial_finds(digits, 4);
}

#[test]
fn search_finds_every_solution_of_a_puzzle_with_six() {
    let puzzle = thinned(13, 7, 2);
    assert_eq!(puzzle.iter().filter(|d| **d == 0).count(), 43);
    assert_finds_exactly_what_trial_finds(puzzle, 6);
}

#[test]
fn search_counts_dead_ends_of_a_thinned_puzzle() {
    let puzzle = thinned(13, 7, 3);
    assert_eq!(puzzle.iter().filter(|d| **d == 0).count(), 44);
    let mut s = SudokuSolver::new(puzzle, vec![Rule::NormalSudoku]);
    s.solve_loop();
    assert_eq!(s.solutions().len(), 2);
    assert_eq!(by_trial(&puzzle).len(), 2);
    assert_eq!(s.dead_end_count(), 1078);
    assert_eq!(s.stack_size(), 0);
}

#[test]
fn puzzle_whose_blank_has_no_digit_left_is_unsolvable_by_trial_too() {
    let mut digits = ANSWER;
    digits[0] = 0;
    digits[1] = 4;
    assert_eq!(by_trial(&digits).len(), 0);
    let mut s = SudokuSolver::new(digits, vec![Rule::NormalSudoku]);
    s.solve_loop();
    assert_eq!(s.solutions().len(), 0);
}
