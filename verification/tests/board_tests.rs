use sudoku::{
    Action, Arbiter, Board, BoardDescription, Digit, DigitPos, DigitSet, GameDescription, Rules, RulesDescription,
    MoveError, SolveError, Solver, UpdateResult, after_move, parse_move,
};

#[test]
fn digit_numbers() {
    assert_eq!(Digit::try_from(0u32), Err(()));
    assert_eq!(Digit::try_from(10u32), Err(()));
    assert_eq!(Digit::try_from(4u32), Ok(Digit::_4));
    assert_eq!(u32::from(Digit::_7), 7);
    assert_eq!(Digit::_9.shift(), Digit::_1);
    assert_eq!(Digit::_3.shift(), Digit::_4);
    assert_eq!(Digit::_9.next(), None);
    assert_eq!(Digit::_8.next(), Some(Digit::_9));
    assert_eq!(Digit::_5.index(), 5);
    assert_eq!(Digit::from_u32(9), Some(Digit::_9));
}

#[test]
fn digit_set_operations() {
    let mut set = DigitSet::new();
    assert_eq!(set.count(), 0);
    assert_eq!(set.first(), None);
    set.set(Digit::_5);
    set.set(Digit::_2);
    assert!(set.get(Digit::_5));
    assert!(!set.get(Digit::_3));
    assert_eq!(set.count(), 2);
    assert_eq!(set.first(), Some(Digit::_2));
    set.clear(Digit::_2);
    assert_eq!(set.first(), Some(Digit::_5));
    let mut other = DigitSet::new();
    other.set(Digit::_1);
    set.union(&other);
    assert_eq!(set.count(), 2);
    assert_eq!(set.first(), Some(Digit::_1));
    set.invert();
    assert_eq!(set.count(), 7);
    assert!(!set.get(Digit::_1));
    assert!(set.get(Digit::_9));
    let mut again = DigitSet::default();
    again.set(Digit::_1);
    again.set(Digit::_5);
    again.invert();
    assert!(set == again);
    assert!(set != other);
}

#[test]
fn board_coordinates() {
    let board = Board::default();
    assert_eq!(board.len(), 81);
    assert_eq!(board.width(), 9);
    assert_eq!(board.height(), 9);
    assert_eq!(board.index(4, 2), 22);
    assert_eq!(board.xy(22), (4, 2));
    for i in 0..81 {
        let (x, y) = board.xy(i);
        assert_eq!(board.index(x, y), i);
    }
    assert!(board.in_bounds(8, 8));
    assert!(!board.in_bounds(9, 0));
    assert!(!board.in_bounds(0, 9));
}

#[test]
fn board_cells() {
    let mut board = Board::default();
    assert!(board.has_gaps());
    assert_eq!(board.first_open_index(), Some(0));
    board.set(0, 0, Digit::_3);
    assert_eq!(board.get(0, 0), Some(Digit::_3));
    assert_eq!(board.first_open_index(), Some(1));
    assert_eq!(board.next_open_index(0), Some(1));
    assert_eq!(board.next_open_index(80), None);
    board.reset(0, 0);
    assert_eq!(board.get(0, 0), None);
    let full = Board::make([5; 81]);
    assert!(!full.has_gaps());
    assert_eq!(full.first_open_index(), None);
    let mut numbers = [0u32; 81];
    numbers[3] = 12;
    numbers[4] = 9;
    let made = Board::make(numbers);
    assert_eq!(made.board[3], None);
    assert_eq!(made.board[4], Some(Digit::_9));
}

#[test]
fn description_round_trip() {
    let mut numbers = [0u32; 81];
    numbers[0] = 1;
    numbers[40] = 9;
    let board = Board::make(numbers);
    let description = board.to_description();
    assert_eq!(description.width, 9);
    assert_eq!(description.height, 9);
    assert_eq!(description.digits, numbers.to_vec());
    assert_eq!(description.build(), Ok(board));
}

#[test]
fn description_errors() {
    let bad_width = BoardDescription { width: 8, height: 9, digits: Vec::new() };
    assert_eq!(bad_width.build(), Err(()));
    let bad_height = BoardDescription { width: 9, height: 10, digits: Vec::new() };
    assert_eq!(bad_height.build(), Err(()));
    let bad_len = BoardDescription { width: 9, height: 9, digits: vec![1, 2, 3] };
    assert_eq!(bad_len.build(), Err(()));
    let empty = BoardDescription { width: 9, height: 9, digits: Vec::new() };
    assert_eq!(empty.build(), Ok(Board::default()));
}

#[test]
fn game_description_builds_board_and_rules() {
    let mut digits = vec![0u32; 81];
    digits[0] = 4;
    let game = GameDescription {
        board: BoardDescription { width: 9, height: 9, digits },
        rules: RulesDescription::standard_sudoku_rules(),
    };
    let (board, rules) = game.build();
    assert_eq!(board.board[0], Some(Digit::_4));
    assert!(rules.check(&board));
    let default_game = GameDescription::default();
    assert_eq!(default_game.board.width, 0);
    assert!(!default_game.rules.rows);
}

#[test]
fn update_outcomes() {
    let arbiter = Arbiter::new(Rules::standard_sudoku_rules());
    let mut board = Board::default();
    let status = arbiter.update(&mut board, Action::Place(vec![DigitPos { digit: Digit::_1, x: 0, y: 0 }]));
    assert_eq!(status, UpdateResult::Applied);
    assert!(status.is_ok());
    assert_eq!(board.get(0, 0), Some(Digit::_1));

    // Writing onto a filled cell is illegal and leaves the board alone.
    let status = arbiter.update(&mut board, Action::Place(vec![DigitPos { digit: Digit::_2, x: 0, y: 0 }]));
    assert_eq!(status, UpdateResult::IllegalMove);
    assert!(!status.is_ok());
    assert_eq!(board.get(0, 0), Some(Digit::_1));

    // A digit that breaks a rule stops the move; digits before it stay.
    let status = arbiter.update(
        &mut board,
        Action::Place(vec![DigitPos { digit: Digit::_2, x: 1, y: 0 }, DigitPos { digit: Digit::_1, x: 5, y: 0 }]),
    );
    assert_eq!(status, UpdateResult::IllegalMove);
    assert_eq!(board.get(1, 0), Some(Digit::_2));
    assert_eq!(board.get(5, 0), None);
    assert!(arbiter.check(&board));

    assert_eq!(arbiter.update(&mut board, Action::Abort), UpdateResult::Aborted);
    assert_eq!(arbiter.update(&mut board, Action::AlreadySolved), UpdateResult::IllegalMove);
    let mut numbers = [0u32; 81];
    for y in 0..9 {
        for x in 0..9 {
            numbers[y * 9 + x] = ((x + 3 * (y % 3) + y / 3) % 9 + 1) as u32;
        }
    }
    let mut solved = Board::make(numbers);
    assert!(arbiter.is_solved(&solved));
    assert_eq!(arbiter.update(&mut solved, Action::AlreadySolved), UpdateResult::Done);
    assert!(UpdateResult::Done.is_ok());
}

struct OffGrid;

impl Solver for OffGrid {
    fn make_move(&mut self, _board: &Board, _rules: &Arbiter) -> Action {
        Action::Place(vec![DigitPos { digit: Digit::_1, x: 9, y: 0 }])
    }
}

#[test]
fn step_applies_a_solver_move() {
    let arbiter = Arbiter::new(Rules::standard_sudoku_rules());
    let mut board = Board::default();
    let mut solver = OffGrid;
    assert_eq!(arbiter.step(&mut board, &mut solver), UpdateResult::IllegalMove);
    assert_eq!(board, Board::default());
}

#[test]
fn parse_move_reads_column_row_digit() {
    let pos = parse_move(&vec![3, 4, 7]).ok().unwrap();
    assert_eq!((pos.x, pos.y, u32::from(pos.digit)), (3, 4, 7));
    assert_eq!(parse_move(&vec![3, 4]).err(), Some(MoveError::Count));
    assert_eq!(parse_move(&vec![1, 2, 3, 4]).err(), Some(MoveError::Count));
    assert_eq!(parse_move(&vec![1, 2, 0]).err(), Some(MoveError::Digit));
    assert_eq!(parse_move(&vec![1, 2, 10]).err(), Some(MoveError::Digit));
}

#[test]
fn moves_after_an_illegal_one_are_not_reached() {
    let arbiter = Arbiter::new(Rules::standard_sudoku_rules());
    let mut board = Board::default();
    let one = Digit::try_from(1u32).unwrap();
    let moves = vec![
        DigitPos { digit: one, x: 0, y: 0 },
        DigitPos { digit: one, x: 1, y: 0 },
        DigitPos { digit: one, x: 20, y: 0 },
    ];
    let action = Action::Place(moves);
    assert!(arbiter.reaches_grid(&board, &action));
    assert_eq!(arbiter.update(&mut board, action), UpdateResult::IllegalMove);
    assert_eq!(board.get(0, 0), Some(one));
    assert_eq!(board.get(1, 0), None);
    let off = Action::Place(vec![DigitPos { digit: one, x: 20, y: 0 }]);
    assert!(!arbiter.reaches_grid(&board, &off));
}

#[test]
fn after_move_decides_the_loop() {
    assert_eq!(after_move(UpdateResult::Applied), None);
    assert_eq!(after_move(UpdateResult::Done), Some(Ok(())));
    assert_eq!(after_move(UpdateResult::Aborted), Some(Err(SolveError::Aborted)));
    assert_eq!(after_move(UpdateResult::IllegalMove), Some(Err(SolveError::Illegal)));
}
