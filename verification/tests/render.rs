use sudoku_solver::board::{Field, SudBoard};
use sudoku_solver::render::render;

#[test]
fn render_groups_cells_and_lines() {
    let digits: [i8; 81] = [
        4, 3, 8, 5, 1, 7, 9, 6, 2, //
        7, 5, 9, 2, 3, 6, 1, 4, 8, //
        1, 2, 6, 9, 8, 4, 3, 5, 7, //
        5, 7, 3, 4, 6, 9, 8, 2, 1, //
        9, 1, 2, 8, 5, 3, 6, 7, 4, //
        8, 6, 4, 7, 2, 1, 5, 9, 3, //
        3, 4, 1, 6, 7, 5, 2, 8, 9, //
        6, 8, 7, 3, 9, 2, 4, 1, 5, //
        2, 9, 5, 1, 4, 8, 7, 3, 6,
    ];
    let b = SudBoard::new(&digits).unwrap();
    let expected = "438 517 962 \n759 236 148 \n126 984 357 \n\n\
                    573 469 821 \n912 853 674 \n864 721 593 \n\n\
                    341 675 289 \n687 392 415 \n295 148 736 \n\n";
    assert_eq!(render(&b), expected);
}

#[test]
fn render_shows_open_cells_as_question_marks() {
    let mut digits = [0i8; 81];
    digits[0] = 1;
    digits[40] = 5;
    digits[80] = 9;
    let b = SudBoard::new(&digits).unwrap();
    let expected = "1?? ??? ??? \n??? ??? ??? \n??? ??? ??? \n\n\
                    ??? ??? ??? \n??? ?5? ??? \n??? ??? ??? \n\n\
                    ??? ??? ??? \n??? ??? ??? \n??? ??? ??9 \n\n";
    assert_eq!(render(&b), expected);
}

#[test]
fn render_writes_numbers_in_decimal() {
    let b = SudBoard {
        state: vec![
            Field::Value(-128),
            Field::Value(127),
            Field::Value(0),
            Field::Value(-7),
            Field::Value(10),
            Field::Value(100),
            Field::Value(-100),
            Field::Value(99),
            Field::Possible(vec![]),
            Field::Value(-10),
        ],
    };
    assert_eq!(render(&b), "-1281270 -710100 -10099? \n-10");
    assert_eq!(render(&SudBoard { state: vec![] }), "");
}
