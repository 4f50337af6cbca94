use sudoku::{Board, KnightsMove, Rules, RulesDescription, SudokuBox, SudokuColumn, SudokuRow, SudokuRule, ThermalSudoku};

const EMPTY: [u32; 81] = [0; 81];

fn with_cells(cells: &[(usize, u32)]) -> Board {
    let mut numbers = EMPTY;
    for (i, n) in cells {
        numbers[*i] = *n;
    }
    Board::make(numbers)
}

#[test]
fn test_row_rule() {
    let row_rule = SudokuRow;

    let board: Board = Board::make([0; 81]);
    assert!(row_rule.check(&board));

    let board: Board = Board::make([
        1, 2, 3, 4, 5, 6, 7, 8, 9,
        1, 2, 3, 4, 5, 6, 7, 8, 9,
        1, 2, 3, 4, 5, 6, 7, 8, 9,
        1, 2, 3, 4, 5, 6, 7, 8, 9,
        1, 2, 3, 4, 5, 6, 7, 8, 9,
        1, 2, 3, 4, 5, 6, 7, 8, 9,
        1, 2, 3, 4, 5, 6, 7, 8, 9,
        1, 2, 3, 4, 5, 6, 7, 8, 9,
        1, 2, 3, 4, 5, 6, 7, 8, 9,
    ]);
    assert!(row_rule.check(&board));

    let board: Board = Board::make([
        1, 1, 0, 0, 0, 0, 0, 0, 0,
        0, 0, 0, 0, 0, 0, 0, 0, 0,
        0, 0, 0, 0, 0, 0, 0, 0, 0,
        0, 0, 0, 0, 0, 0, 0, 0, 0,
        0, 0, 0, 0, 0, 0, 0, 0, 0,
        0, 0, 0, 0, 0, 0, 0, 0, 0,
        0, 0, 0, 0, 0, 0, 0, 0, 0,
        0, 0, 0, 0, 0, 0, 0, 0, 0,
        0, 0, 0, 0, 0, 0, 0, 0, 0,
    ]);
    assert!(!row_rule.check(&board));
}

#[test]
fn test_column_rule() {
    let column_rule = SudokuColumn;

    let board: Board = Board::make([0; 81]);
    assert!(column_rule.check(&board));

    let board: Board = Board::make([
        1, 1, 1, 1, 1, 1, 1, 1, 1,
        2, 2, 2, 2, 2, 2, 2, 2, 2,
        3, 3, 3, 3, 3, 3, 3, 3, 3,
        4, 4, 4, 4, 4, 4, 4, 4, 4,
        5, 5, 5, 5, 5, 5, 5, 5, 5,
        6, 6, 6, 6, 6, 6, 6, 6, 6,
        7, 7, 7, 7, 7, 7, 7, 7, 7,
        8, 8, 8, 8, 8, 8, 8, 8, 8,
        9, 9, 9, 9, 9, 9, 9, 9, 9,
    ]);
    assert!(column_rule.check(&board));

    let board: Board = Board::make([
        1, 0, 0, 0, 0, 0, 0, 0, 0,
        1, 0, 0, 0, 0, 0, 0, 0, 0,
        0, 0, 0, 0, 0, 0, 0, 0, 0,
        0, 0, 0, 0, 0, 0, 0, 0, 0,
        0, 0, 0, 0, 0, 0, 0, 0, 0,
        0, 0, 0, 0, 0, 0, 0, 0, 0,
        0, 0, 0, 0, 0, 0, 0, 0, 0,
        0, 0, 0, 0, 0, 0, 0, 0, 0,
        0, 0, 0, 0, 0, 0, 0, 0, 0,
    ]);
    assert!(!column_rule.check(&board));
}

#[test]
fn test_box_rule() {
    let box_rule = SudokuBox;

    let board: Board = Board::make([0; 81]);
    assert!(box_rule.check(&board));

    let board: Board = Board::make([
        1, 2, 3, 1, 2, 3, 1, 2, 3,
        4, 5, 6, 4, 5, 6, 4, 5, 6,
        7, 8, 9, 7, 8, 9, 7, 8, 9,
        1, 2, 3, 1, 2, 3, 1, 2, 3,
        4, 5, 6, 4, 5, 6, 4, 5, 6,
        7, 8, 9, 7, 8, 9, 7, 8, 9,
        1, 2, 3, 1, 2, 3, 1, 2, 3,
        4, 5, 6, 4, 5, 6, 4, 5, 6,
        7, 8, 9, 7, 8, 9, 7, 8, 9,
    ]);
    assert!(box_rule.check(&board));

    let board: Board = Board::make([
        1, 0, 0, 0, 0, 0, 0, 0, 0,
        0, 0, 0, 0, 0, 0, 0, 0, 0,
        0, 0, 1, 0, 0, 0, 0, 0, 0,
        0, 0, 0, 0, 0, 0, 0, 0, 0,
        0, 0, 0, 0, 0, 0, 0, 0, 0,
        0, 0, 0, 0, 0, 0, 0, 0, 0,
        0, 0, 0, 0, 0, 0, 0, 0, 0,
        0, 0, 0, 0, 0, 0, 0, 0, 0,
        0, 0, 0, 0, 0, 0, 0, 0, 0,
    ]);
    assert!(!box_rule.check(&board));
}

#[test]
fn test_knights_move() {
    let knights_rule = KnightsMove;

    let board: Board = Board::make([0; 81]);
    assert!(knights_rule.check(&board));

    let board: Board = Board::make([
        0, 0, 0, 0, 0, 0, 0, 0, 0,
        0, 0, 0, 0, 0, 0, 0, 0, 0,
        0, 0, 0, 0, 0, 0, 0, 0, 0,
        0, 0, 0, 1, 0, 0, 0, 0, 0,
        0, 0, 0, 0, 0, 0, 0, 0, 0,
        0, 0, 0, 0, 0, 0, 0, 0, 0,
        0, 0, 0, 0, 0, 0, 0, 0, 0,
        0, 0, 0, 0, 0, 0, 0, 0, 0,
        0, 0, 0, 0, 0, 0, 0, 0, 0,
    ]);
    assert!(knights_rule.check(&board));

    let board: Board = Board::make([
        0, 0, 0, 0, 0, 0, 0, 0, 0,
        0, 0, 0, 0, 1, 0, 0, 0, 0,
        0, 0, 0, 0, 0, 0, 0, 0, 0,
        0, 0, 0, 1, 0, 0, 0, 0, 0,
        0, 0, 0, 0, 0, 0, 0, 0, 0,
        0, 0, 0, 0, 0, 0, 0, 0, 0,
        0, 0, 0, 0, 0, 0, 0, 0, 0,
        0, 0, 0, 0, 0, 0, 0, 0, 0,
        0, 0, 0, 0, 0, 0, 0, 0, 0,
    ]);
    assert!(!knights_rule.check(&board));
}

#[test]
fn test_thermal() {
    let thermal = ThermalSudoku::new(vec![vec![0, 1, 2, 3]]);

    let board: Board = Board::make([0; 81]);
    assert!(thermal.check(&board));

    let board: Board = Board::make([
        1, 2, 0, 4, 0, 0, 0, 0, 0,
        0, 0, 0, 0, 0, 0, 0, 0, 0,
        0, 0, 0, 0, 0, 0, 0, 0, 0,
        0, 0, 0, 0, 0, 0, 0, 0, 0,
        0, 0, 0, 0, 0, 0, 0, 0, 0,
        0, 0, 0, 0, 0, 0, 0, 0, 0,
        0, 0, 0, 0, 0, 0, 0, 0, 0,
        0, 0, 0, 0, 0, 0, 0, 0, 0,
        0, 0, 0, 0, 0, 0, 0, 0, 0,
    ]);
    assert!(thermal.check(&board));

    let board: Board = Board::make([
        2, 1, 0, 0, 0, 0, 0, 0, 0,
        0, 0, 0, 0, 0, 0, 0, 0, 0,
        0, 0, 0, 0, 0, 0, 0, 0, 0,
        0, 0, 0, 0, 0, 0, 0, 0, 0,
        0, 0, 0, 0, 0, 0, 0, 0, 0,
        0, 0, 0, 0, 0, 0, 0, 0, 0,
        0, 0, 0, 0, 0, 0, 0, 0, 0,
        0, 0, 0, 0, 0, 0, 0, 0, 0,
        0, 0, 0, 0, 0, 0, 0, 0, 0,
    ]);
    assert!(!thermal.check(&board));

    let board: Board = Board::make([
        1, 1, 0, 0, 0, 0, 0, 0, 0,
        0, 0, 0, 0, 0, 0, 0, 0, 0,
        0, 0, 0, 0, 0, 0, 0, 0, 0,
        0, 0, 0, 0, 0, 0, 0, 0, 0,
        0, 0, 0, 0, 0, 0, 0, 0, 0,
        0, 0, 0, 0, 0, 0, 0, 0, 0,
        0, 0, 0, 0, 0, 0, 0, 0, 0,
        0, 0, 0, 0, 0, 0, 0, 0, 0,
        0, 0, 0, 0, 0, 0, 0, 0, 0,
    ]);
    assert!(!thermal.check(&board));
}

#[test]
fn check_agrees_with_check_one_everywhere() {
    // The whole-board check holds exactly when the check holds at every cell.
    let boards = [
        with_cells(&[(0, 1), (1, 1)]),
        with_cells(&[(0, 1), (9, 1)]),
        with_cells(&[(0, 1), (20, 1)]),
        with_cells(&[(0, 1), (11, 1)]),
        with_cells(&[(0, 5), (80, 5), (40, 3)]),
    ];
    for board in boards.iter() {
        let row = SudokuRow;
        let col = SudokuColumn;
        let bx = SudokuBox;
        let kn = KnightsMove;
        let all_row = (0..81).all(|i| row.check_one(board, i));
        let all_col = (0..81).all(|i| col.check_one(board, i));
        let all_box = (0..81).all(|i| bx.check_one(board, i));
        let all_kn = (0..81).all(|i| kn.check_one(board, i));
        assert_eq!(row.check(board), all_row);
        assert_eq!(col.check(board), all_col);
        assert_eq!(bx.check(board), all_box);
        assert_eq!(kn.check(board), all_kn);
    }
}

#[test]
fn check_one_reports_the_offending_cells() {
    let board = with_cells(&[(0, 1), (8, 1)]);
    let row = SudokuRow;
    assert!(!row.check_one(&board, 0));
    assert!(!row.check_one(&board, 8));
    assert!(row.check_one(&board, 4));
    // A box check looks at the whole box, whatever cell it is asked about.
    let board = with_cells(&[(0, 7), (20, 7)]);
    let bx = SudokuBox;
    assert!(!bx.check_one(&board, 10));
    assert!(bx.check_one(&board, 30));
}

#[test]
fn knight_move_at_the_edge() {
    // A knight's move from a corner stays on the grid.
    let board = with_cells(&[(0, 4), (19, 4)]);
    assert!(!KnightsMove.check(&board));
    let board = with_cells(&[(0, 4), (10, 4)]);
    assert!(KnightsMove.check(&board));
    let board = with_cells(&[(80, 2), (61, 2)]);
    assert!(!KnightsMove.check_one(&board, 80));
}

#[test]
fn thermometer_through_several_cells() {
    let thermal = ThermalSudoku::new(vec![vec![10, 11, 20], vec![], vec![20, 30]]);
    assert!(thermal.check(&with_cells(&[(10, 3), (20, 7), (30, 8)])));
    assert!(!thermal.check(&with_cells(&[(10, 3), (20, 7), (30, 7)])));
    assert!(!thermal.check_one(&with_cells(&[(20, 7), (30, 7)]), 20));
    assert!(thermal.check_one(&with_cells(&[(20, 7), (30, 7)]), 10));
}

#[test]
fn rules_combine_every_rule_in_force() {
    let standard = Rules::standard_sudoku_rules();
    assert!(standard.check(&Board::make([0; 81])));
    assert!(!standard.check(&with_cells(&[(0, 1), (9, 1)])));
    // The knight's move is off in the standard rules.
    assert!(standard.check(&with_cells(&[(20, 4), (39, 4)])));

    let knight = Rules::from(RulesDescription {
        rows: false,
        cols: false,
        boxes: false,
        knight: true,
        thermometers: Vec::new(),
    });
    assert!(!knight.check(&with_cells(&[(20, 4), (39, 4)])));
    assert!(knight.check(&with_cells(&[(0, 1), (1, 1)])));
    assert!(!knight.check_one(&with_cells(&[(0, 4), (19, 4)]), 19));

    let thermo = Rules::from(RulesDescription {
        rows: false,
        cols: false,
        boxes: false,
        knight: false,
        thermometers: vec![vec![0, 1]],
    });
    assert!(!thermo.check(&with_cells(&[(0, 5), (1, 4)])));
    assert!(thermo.check(&with_cells(&[(0, 4), (1, 5)])));
}
