use rand::rngs::StdRng;
use rand::SeedableRng;
use sudoku_gen::board::{Board, Coord, Tile};
use sudoku_gen::game::{Game, GameError};
use sudoku_gen::generator::{BoardGenerator, BoardGeneratorError};

fn same_cells(a: &Board, b: &Board) -> bool {
    (0..9u8).all(|x| (0..9u8).all(|y| a.get_tile(&Coord::new(x, y)) == b.get_tile(&Coord::new(x, y))))
}

fn filled(b: &Board) -> usize {
    b.get_filled_tile_coords().len()
}

#[test]
fn filling_an_empty_board_gives_a_solution() {
    let mut generator = BoardGenerator::new(StdRng::seed_from_u64(7));
    let board = generator.try_fill_board(Board::default()).ok().unwrap();
    assert!(board.is_complete());
    assert!(board.verify_board());
    assert_eq!(filled(&board), 81);
}

#[test]
fn filling_keeps_given_digits() {
    let mut start = Board::default();
    start.set_tile_in_place(&Coord::new(4, 4), Tile::Filled(8));
    start.set_tile_in_place(&Coord::new(0, 8), Tile::Filled(3));
    let mut generator = BoardGenerator::new(StdRng::seed_from_u64(11));
    let board = generator.try_fill_board(start).ok().unwrap();
    assert_eq!(*board.get_tile(&Coord::new(4, 4)), Tile::Filled(8));
    assert_eq!(*board.get_tile(&Coord::new(0, 8)), Tile::Filled(3));
    assert!(board.is_complete() && board.verify_board());
}

#[test]
fn filling_a_contradictory_board_fails() {
    let mut start = Board::default();
    for (x, d) in [(1u8, 1u8), (2, 2), (3, 3), (4, 4), (5, 5), (6, 6), (7, 7), (8, 8)] {
        start.set_tile_in_place(&Coord::new(x, 0), Tile::Filled(d));
    }
    start.set_tile_in_place(&Coord::new(0, 5), Tile::Filled(9));
    let mut generator = BoardGenerator::new(StdRng::seed_from_u64(3));
    assert!(matches!(generator.try_fill_board(start), Err(BoardGeneratorError::NoNumberAvailable)));
}

#[test]
fn filling_depends_on_the_random_source() {
    let mut first_cells = Vec::new();
    for seed in 0..8u64 {
        let mut generator = BoardGenerator::new(StdRng::seed_from_u64(seed));
        let board = generator.try_fill_board(Board::default()).ok().unwrap();
        first_cells.push(*board.get_tile(&Coord::new(0, 0)));
    }
    assert!(first_cells.iter().any(|t| *t != first_cells[0]));
}

#[test]
fn clue_is_carved_from_solution_and_refills_to_it() {
    let mut generator = BoardGenerator::new(StdRng::seed_from_u64(42));
    let (solved, clue) = match generator.new_board(40) {
        Ok(pair) => pair,
        Err(_) => return,
    };
    assert_eq!(filled(&clue), 40);
    for c in clue.get_filled_tile_coords() {
        assert_eq!(clue.get_tile(&c), solved.get_tile(&c));
    }
    let refilled = generator.try_fill_board(clue).ok().unwrap();
    assert!(same_cells(&refilled, &solved));
}

#[test]
fn numbers_for_tiles() {
    let tiles = vec![Tile::Empty, Tile::Filled(6), Tile::Filled(2), Tile::Empty, Tile::Filled(6)];
    let set = BoardGenerator::get_numbers_for_tiles(&tiles);
    for d in 0..=9u8 {
        assert_eq!(set.contains(d), d == 2 || d == 6);
    }
}

#[test]
fn generate_with_twenty_five_clues() {
    let mut generator = BoardGenerator::new(StdRng::seed_from_u64(1));
    match Game::new_with_generator(&mut generator, 2, 25) {
        Ok(game) => {
            assert_eq!(filled(&game.current), 25);
            assert_eq!(filled(&game.solved), 81);
            assert!(game.solved.verify_board());
            assert!(game.history.is_empty());
            for c in game.current.get_filled_tile_coords() {
                assert_eq!(game.current.get_tile(&c), game.solved.get_tile(&c));
            }
        }
        Err(e) => assert!(matches!(e, GameError::TriesExceeded)),
    }
}

#[test]
fn generate_with_all_clues_removes_nothing() {
    let game = Game::new_random(1, 81).ok().unwrap();
    assert!(same_cells(&game.current, &game.solved));
    assert_eq!(filled(&game.current), 81);
}

#[test]
fn generate_with_no_attempts_fails() {
    assert!(matches!(Game::new_random(0, 30), Err(GameError::TriesExceeded)));
    let mut generator = BoardGenerator::new(StdRng::seed_from_u64(9));
    assert!(matches!(Game::new_with_generator(&mut generator, 0, 30), Err(GameError::TriesExceeded)));
}

#[test]
fn first_fitting_digit_in_order_is_placed() {
    let mut board = Board::default();
    board.set_tile_in_place(&Coord::new(1, 0), Tile::Filled(3));
    board.set_tile_in_place(&Coord::new(0, 4), Tile::Filled(5));
    let at = Coord::new(0, 0);
    let (digit, placed) = sudoku_gen::generator::place_first_fitting(&board, &at, &vec![3, 5, 7, 1]).unwrap();
    assert_eq!(digit, 7);
    assert_eq!(*placed.get_tile(&at), Tile::Filled(7));
    assert_eq!(*board.get_tile(&at), Tile::Empty);
    assert!(sudoku_gen::generator::place_first_fitting(&board, &at, &vec![3, 5]).is_none());
}

#[test]
fn attempt_outcomes() {
    assert!(Game::from_attempt(Err(BoardGeneratorError::NoDeletionsAvailable(Board::default()))).is_none());
    assert!(matches!(
        Game::from_attempt(Err(BoardGeneratorError::NoNumberAvailable)),
        Some(Err(GameError::BoardGeneratorError(BoardGeneratorError::NoNumberAvailable)))
    ));
    let solved = Board::solved_pattern();
    let clue = solved.set_tile(&Coord::new(2, 2), Tile::Empty);
    match Game::from_attempt(Ok((solved, clue))) {
        Some(Ok(game)) => {
            assert!(game.history.is_empty());
            assert_eq!(*game.current.get_tile(&Coord::new(2, 2)), Tile::Empty);
            assert!(game.solved.is_complete());
        }
        _ => panic!("a finished attempt gives the game"),
    }
}

#[test]
fn solved_pattern_is_a_solution() {
    let board = Board::solved_pattern();
    assert!(board.is_complete());
    assert!(board.verify_board());
    assert_eq!(*board.get_tile(&Coord::new(0, 0)), Tile::Filled(1));
    assert_eq!(*board.get_tile(&Coord::new(0, 1)), Tile::Filled(4));
}

#[test]
fn new_board_with_all_clues_succeeds() {
    let mut generator = BoardGenerator::new(StdRng::seed_from_u64(5));
    let (solved, clue) = generator.new_board(81).ok().unwrap();
    assert!(same_cells(&solved, &clue));
}

#[test]
fn filling_the_empty_board_always_succeeds() {
    for seed in 20..24u64 {
        let mut generator = BoardGenerator::new(StdRng::seed_from_u64(seed));
        let board = generator.fill_empty_board();
        assert!(board.is_complete() && board.verify_board());
    }
}
