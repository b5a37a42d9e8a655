use sudoku_solver::board::{BoardError, Field, SudBoard};

const SOLVED: [i8; 81] = [
    4, 3, 8, 5, 1, 7, 9, 6, 2, //
    7, 5, 9, 2, 3, 6, 1, 4, 8, //
    1, 2, 6, 9, 8, 4, 3, 5, 7, //
    5, 7, 3, 4, 6, 9, 8, 2, 1, //
    9, 1, 2, 8, 5, 3, 6, 7, 4, //
    8, 6, 4, 7, 2, 1, 5, 9, 3, //
    3, 4, 1, 6, 7, 5, 2, 8, 9, //
    6, 8, 7, 3, 9, 2, 4, 1, 5, //
    2, 9, 5, 1, 4, 8, 7, 3, 6,
];

fn board_of(digits: &[i8]) -> SudBoard {
    match SudBoard::new(digits) {
        Ok(b) => b,
        Err(e) => panic!("{:?}", e),
    }
}

#[test]
fn new_refuses_wrong_length() {
    assert_eq!(SudBoard::new(&[]), Err(BoardError::WrongLength));
    assert_eq!(SudBoard::new(&[0i8; 80]), Err(BoardError::WrongLength));
    assert_eq!(SudBoard::new(&[0i8; 82]), Err(BoardError::WrongLength));
    assert!(SudBoard::new(&[0i8; 81]).is_ok());
}

#[test]
fn new_maps_zero_to_all_candidates() {
    let mut digits = [0i8; 81];
    digits[5] = 7;
    digits[80] = 9;
    let b = board_of(&digits);
    assert_eq!(b.state.len(), 81);
    assert_eq!(*b.get(0), Field::Possible(vec![1, 2, 3, 4, 5, 6, 7, 8, 9]));
    assert_eq!(*b.get(5), Field::Value(7));
    assert_eq!(*b.get(79), Field::Possible(vec![1, 2, 3, 4, 5, 6, 7, 8, 9]));
    assert_eq!(*b.get(80), Field::Value(9));
}

#[test]
fn new_takes_any_nonzero_digit_as_settled() {
    let mut digits = [0i8; 81];
    digits[0] = 12;
    digits[1] = -3;
    let b = board_of(&digits);
    assert_eq!(*b.get(0), Field::Value(12));
    assert_eq!(*b.get(1), Field::Value(-3));
}

#[test]
fn blank_field_has_nine_candidates_in_order() {
    assert_eq!(Field::blank(), Field::Possible(vec![1, 2, 3, 4, 5, 6, 7, 8, 9]));
}

#[test]
fn set_replaces_one_cell_only() {
    let mut b = board_of(&SOLVED);
    b.set(40, Field::Possible(vec![5, 1]));
    assert_eq!(*b.get(40), Field::Possible(vec![5, 1]));
    b.set(40, Field::Value(5));
    assert_eq!(b, board_of(&SOLVED));
    b.set(0, Field::Value(9));
    assert_eq!(*b.get(0), Field::Value(9));
    assert_eq!(*b.get(1), Field::Value(3));
}

#[test]
fn is_complete_needs_every_cell_settled() {
    let mut b = board_of(&SOLVED);
    assert!(b.is_complete());
    b.set(80, Field::Possible(vec![6]));
    assert!(!b.is_complete());
    b.set(80, Field::Possible(vec![]));
    assert!(!b.is_complete());
    assert!(!board_of(&[0i8; 81]).is_complete());
}

#[test]
fn duplicate_and_same_as_agree() {
    let mut digits = SOLVED;
    digits[3] = 0;
    let a = board_of(&digits);
    let b = a.duplicate();
    assert_eq!(a, b);
    assert!(a.same_as(&b));
    assert!(b.same_as(&a));
    let mut c = a.duplicate();
    c.set(3, Field::Possible(vec![1, 2, 3, 4, 5, 6, 7, 8]));
    assert!(!a.same_as(&c));
    c.set(3, Field::Value(5));
    assert!(!a.same_as(&c));
    assert!(c.same_as(&board_of(&SOLVED)));
}

#[test]
fn same_as_sees_candidate_order_and_length() {
    assert!(Field::Possible(vec![1, 2]).same_as(&Field::Possible(vec![1, 2])));
    assert!(!Field::Possible(vec![1, 2]).same_as(&Field::Possible(vec![2, 1])));
    assert!(!Field::Possible(vec![1, 2]).same_as(&Field::Possible(vec![1])));
    assert!(!Field::Possible(vec![1]).same_as(&Field::Value(1)));
    assert!(!Field::Value(1).same_as(&Field::Value(2)));
    assert!(Field::Value(2).same_as(&Field::Value(2)));
    let short = SudBoard { state: vec![Field::Value(1)] };
    let long = SudBoard { state: vec![Field::Value(1), Field::Value(2)] };
    assert!(!short.same_as(&long));
}

#[test]
fn is_inside_is_reflexive() {
    let solved = board_of(&SOLVED);
    assert!(solved.is_inside(&solved));
    let blank = board_of(&[0i8; 81]);
    assert!(blank.is_inside(&blank));
    let mut digits = SOLVED;
    digits[0] = 0;
    digits[44] = 0;
    let partial = board_of(&digits);
    assert!(partial.is_inside(&partial));
}

#[test]
fn is_inside_only_looks_at_cells_settled_on_both_sides() {
    let solved = board_of(&SOLVED);
    let blank = board_of(&[0i8; 81]);
    assert!(blank.is_inside(&solved));
    assert!(solved.is_inside(&blank));
    let mut digits = [0i8; 81];
    digits[0] = 4;
    let agrees = board_of(&digits);
    assert!(agrees.is_inside(&solved));
    assert!(solved.is_inside(&agrees));
    digits[0] = 5;
    let differs = board_of(&digits);
    assert!(!differs.is_inside(&solved));
    assert!(!solved.is_inside(&differs));
    assert!(!differs.is_inside(&agrees));
}

#[test]
fn is_inside_is_not_equality() {
    let mut digits = [0i8; 81];
    digits[0] = 4;
    let a = board_of(&digits);
    digits[0] = 0;
    digits[1] = 3;
    let b = board_of(&digits);
    assert!(a != b);
    assert!(a.is_inside(&b));
    assert!(b.is_inside(&a));
}

#[test]
fn is_inside_gives_the_same_answer_both_ways() {
    let mut boards: Vec<SudBoard> = Vec::new();
    boards.push(board_of(&SOLVED));
    boards.push(board_of(&[0i8; 81]));
    for k in 0..20usize {
        let mut digits = [0i8; 81];
        for i in 0..81usize {
            if (i * 7 + k * 13) % 5 < 2 {
                digits[i] = SOLVED[(i + k % 3) % 81];
            }
        }
        boards.push(board_of(&digits));
    }
    for a in boards.iter() {
        for b in boards.iter() {
            assert_eq!(a.is_inside(b), b.is_inside(a));
        }
    }
}

#[test]
fn is_inside_compares_up_to_the_shorter_board() {
    let short = SudBoard { state: vec![Field::Value(1)] };
    let long = SudBoard { state: vec![Field::Value(1), Field::Value(2)] };
    let other = SudBoard { state: vec![Field::Value(3), Field::Value(2)] };
    assert!(short.is_inside(&long));
    assert!(long.is_inside(&short));
    assert!(!short.is_inside(&other));
    assert!(!long.is_inside(&other));
}
