use sudoku_gen::board::{Board, Coord, Tile};
use sudoku_gen::digit_set::SudokuHashSet;

#[test]
fn test_verify_tile_set_valid() {
    let tiles = vec![
        Tile::Filled(1), Tile::Filled(2), Tile::Filled(3),
        Tile::Filled(4), Tile::Filled(5), Tile::Filled(6),
        Tile::Filled(7), Tile::Filled(8), Tile::Filled(9)
    ];
    assert!(Board::is_valid_tile_set(&tiles));
}

#[test]
fn test_verify_tile_set_invalid() {
    let tiles = vec![
        Tile::Filled(1), Tile::Filled(2), Tile::Filled(3),
        Tile::Filled(4), Tile::Filled(5), Tile::Filled(6),
        Tile::Filled(7), Tile::Filled(9), Tile::Filled(9)
    ];
    assert!(!Board::is_valid_tile_set(&tiles));
}

#[test]
fn coord_to_block_index() {
    let coord = Coord::new(3, 3);
    assert_eq!(coord.to_block_index(), 4);

    let coord = Coord::new(2, 3);
    assert_eq!(coord.to_block_index(), 3);
}

#[test]
fn coord_to_index_in_block() {
    let coord = Coord::new(3, 3);
    assert_eq!(coord.to_index_in_block(), 0);

    let coord = Coord::new(2, 3);
    assert_eq!(coord.to_index_in_block(), 2);
}

#[test]
fn tile_set_all_empty_is_valid() {
    let tiles = vec![Tile::Empty; 9];
    assert!(Board::is_valid_tile_set(&tiles));
}

#[test]
fn tile_set_permuted_digits_is_valid() {
    let tiles: Vec<Tile> = [5u8, 3, 9, 1, 7, 2, 8, 6, 4].iter().map(|d| Tile::Filled(*d)).collect();
    assert!(Board::is_valid_tile_set(&tiles));
}

#[test]
fn tile_set_repeat_among_empties_is_invalid() {
    let tiles = vec![
        Tile::Empty, Tile::Filled(4), Tile::Empty,
        Tile::Empty, Tile::Empty, Tile::Empty,
        Tile::Filled(4), Tile::Empty, Tile::Empty
    ];
    assert!(!Board::is_valid_tile_set(&tiles));
}

#[test]
fn block_mapping_is_a_bijection() {
    let mut seen = [[false; 9]; 9];
    for x in 0..9u8 {
        for y in 0..9u8 {
            let c = Coord::new(x, y);
            let (b, i) = (c.to_block_index(), c.to_index_in_block());
            assert!(b < 9 && i < 9);
            assert!(!seen[b][i]);
            seen[b][i] = true;
        }
    }
}

#[test]
fn vec_position_is_row_major() {
    assert_eq!(Coord::new(0, 0).to_vec_position(), 0);
    assert_eq!(Coord::new(8, 0).to_vec_position(), 8);
    assert_eq!(Coord::new(2, 3).to_vec_position(), 29);
    assert_eq!(Coord::new(8, 8).to_vec_position(), 80);
}

#[test]
fn digit_set_holds_exactly_the_inserted_digits() {
    let mut set = SudokuHashSet::new();
    for d in [3u8, 7, 9, 3] {
        set.insert(d);
    }
    for d in 1..=9u8 {
        assert_eq!(set.contains(d), d == 3 || d == 7 || d == 9);
    }
    set.insert(7);
    assert!(set.contains(7));
    assert!(!set.contains(1));
}

#[test]
fn digit_set_from_digits() {
    let set = SudokuHashSet::from_digits(&[2, 4, 4]);
    for d in 0..=9u8 {
        assert_eq!(set.contains(d), d == 2 || d == 4);
    }
}

#[test]
fn empty_board_is_valid_and_incomplete() {
    let board = Board::default();
    assert!(board.verify_board());
    assert!(!board.is_complete());
    assert!(board.get_filled_tile_coords().is_empty());
}

#[test]
fn set_tile_leaves_receiver_unchanged() {
    let board = Board::default();
    let c = Coord::new(4, 6);
    let changed = board.set_tile(&c, Tile::Filled(5));
    assert_eq!(*board.get_tile(&c), Tile::Empty);
    assert_eq!(*changed.get_tile(&c), Tile::Filled(5));
    assert_eq!(changed.get_row_for_coord(&c)[4], Tile::Filled(5));
    assert_eq!(changed.get_column_for_coord(&c)[6], Tile::Filled(5));
    assert_eq!(changed.get_block_for_coord(&c)[c.to_index_in_block()], Tile::Filled(5));
    assert_eq!(c.to_block_index(), 7);
}

#[test]
fn duplicate_in_row_column_or_block_fails_verification() {
    let mut board = Board::default();
    board.set_tile_in_place(&Coord::new(0, 0), Tile::Filled(5));
    board.set_tile_in_place(&Coord::new(8, 0), Tile::Filled(5));
    assert!(!board.verify_board());

    let mut board = Board::default();
    board.set_tile_in_place(&Coord::new(3, 1), Tile::Filled(2));
    board.set_tile_in_place(&Coord::new(3, 7), Tile::Filled(2));
    assert!(!board.verify_board());

    let mut board = Board::default();
    board.set_tile_in_place(&Coord::new(6, 6), Tile::Filled(9));
    board.set_tile_in_place(&Coord::new(8, 8), Tile::Filled(9));
    assert!(!board.verify_board());

    let mut board = Board::default();
    board.set_tile_in_place(&Coord::new(0, 0), Tile::Filled(9));
    board.set_tile_in_place(&Coord::new(4, 4), Tile::Filled(9));
    assert!(board.verify_board());
}

#[test]
fn filled_coords_are_column_major() {
    let mut board = Board::default();
    board.set_tile_in_place(&Coord::new(5, 1), Tile::Filled(1));
    board.set_tile_in_place(&Coord::new(0, 7), Tile::Filled(2));
    board.set_tile_in_place(&Coord::new(5, 0), Tile::Filled(3));
    let coords = board.get_filled_tile_coords();
    assert_eq!(coords, vec![Coord::new(0, 7), Coord::new(5, 0), Coord::new(5, 1)]);
}
