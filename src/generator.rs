use vstd::prelude::*;
use rand::rngs::StdRng;
use rand::seq::SliceRandom;
use crate::board::{
    Board, Coord, Tile, block_of, no_repeat, tile_ok, lemma_block_mapping, lemma_complete_count,
    lemma_count_fill, lemma_filled_upto_elems, lemma_fits_iff_local, lemma_completion_fits,
    lemma_replaceable_after_removal, lemma_filled_upto_has, lemma_valid_after_change, lemma_valid_of_extension,
    lemma_wf_tiles,
};
use crate::digit_set::{SudokuHashSet, count_upto, lemma_count_upto_insert, lemma_count_upto_bound};

verus! {

#[verifier::external_type_specification]
#[verifier::external_body]
pub struct ExStdRng(StdRng);

/// Relies on rand's `SliceRandom::shuffle`, which reorders the slice by swaps
/// only: the result holds the same items, each as often as before.
#[verifier::external_body]
fn shuffle<T>(items: &mut Vec<T>, rng: &mut StdRng)
    ensures
        final(items)@.to_multiset() == old(items)@.to_multiset(),
{
    items.shuffle(rng);
}

/// Why a generation step failed.
pub enum BoardGeneratorError {
    /// No digit fits some empty cell: the board has no completion from here.
    NoNumberAvailable,
    /// More than one completion was found.
    MultipleSolutionsAvailable,
    /// No further cell can be emptied; holds the board reached so far.
    NoDeletionsAvailable(Board),
}

/// Fills and carves boards, drawing its random choices from `rng`.
pub struct BoardGenerator {
    rng: StdRng,
}

/// The first empty cell in column-major order, if any.
fn first_empty(board: &Board) -> (r: Option<Coord>)
    ensures
        r is None ==> board.complete(),
        r matches Some(c) ==> c.valid() && board.cell(c.x as int, c.y as int) is Empty,
{
    let mut x: u8 = 0;
    while x < 9
        invariant
            x <= 9,
            forall|xx: int, yy: int| 0 <= xx < x && 0 <= yy < 9 ==> #[trigger] board.cell(xx, yy) is Filled,
        decreases 9 - x,
    {
        let mut y: u8 = 0;
        while y < 9
            invariant
                x < 9,
                y <= 9,
                forall|xx: int, yy: int| 0 <= xx < x && 0 <= yy < 9 ==> #[trigger] board.cell(xx, yy) is Filled,
                forall|yy: int| 0 <= yy < y ==> #[trigger] board.cell(x as int, yy) is Filled,
            decreases 9 - y,
        {
            let coord = Coord::new(x, y);
            if let Tile::Empty = board.get_tile(&coord) {
                return Some(coord);
            }
            y = y + 1;
        }
        x = x + 1;
    }
    None
}

/// Filling a generated clue board again gives back the solved board it was
/// carved from: that board completes the clue, so filling cannot fail, and
/// every completion holds the same digits as it.
pub proof fn lemma_refill_gives_solution(solved: Board, clue: Board, refilled: Board)
    requires
        solved.wf(),
        solved.complete(),
        solved.valid(),
        clue.extended_by(solved),
        clue.solved_only_by(solved),
    ensures
        clue.has_completion(),
        clue.completed_by(refilled) ==> refilled.same_cells(solved),
{
    assert(clue.completed_by(solved));
}

/// Writes at `coord` the first digit of `order` that fits there, if any.
pub fn place_first_fitting(board: &Board, coord: &Coord, order: &Vec<u8>) -> (r: Option<(u8, Board)>)
    requires
        board.wf(),
        board.valid(),
        coord.valid(),
        forall|j: int| 0 <= j < order@.len() ==> 1 <= #[trigger] order@[j] <= 9,
    ensures
        r matches Some((d, b)) ==> (exists|j: int|
            0 <= j < order@.len() && order@[j] == d && forall|k: int|
                0 <= k < j ==> !board.fits(*coord, #[trigger] order@[k])) && board.fits(*coord, d) && b.wf()
            && b.valid() && board.updated(*coord, Tile::Filled(d), b),
        r is None <==> forall|j: int| 0 <= j < order@.len() ==> !board.fits(*coord, #[trigger] order@[j]),
{
    let mut new_board = *board;
    let mut i: usize = 0;
    while i < order.len()
        invariant
            board.wf(),
            board.valid(),
            coord.valid(),
            new_board.wf(),
            forall|x: int, y: int|
                0 <= x < 9 && 0 <= y < 9 && !(x == coord.x && y == coord.y) ==> #[trigger] new_board.cell(x, y)
                    == board.cell(x, y),
            forall|j: int| 0 <= j < order@.len() ==> 1 <= #[trigger] order@[j] <= 9,
            i <= order@.len(),
            forall|k: int| 0 <= k < i ==> !board.fits(*coord, #[trigger] order@[k]),
        decreases order@.len() - i,
    {
        let num = order[i];
        assert(1 <= order@[i as int] <= 9);
        new_board.set_tile_in_place(coord, Tile::Filled(num));
        proof {
            lemma_block_mapping(coord.x as int, coord.y as int, 0, 0);
            assert(board.updated(*coord, Tile::Filled(num), new_board));
            lemma_fits_iff_local(*board, new_board, *coord, num);
        }
        if new_board.verify_around(coord) {
            proof {
                lemma_valid_after_change(*board, new_board, *coord, Tile::Filled(num));
            }
            return Some((num, new_board));
        }
        i = i + 1;
    }
    None
}

/// The board that carving ends with, whether it reached its target or not.
pub open spec fn carved(r: Result<Board, BoardGeneratorError>) -> Option<Board> {
    match r {
        Ok(b) => Some(b),
        Err(BoardGeneratorError::NoDeletionsAvailable(b)) => Some(b),
        Err(_) => None,
    }
}

/// Whether `c` is among `list`.
fn coord_listed(list: &Vec<Coord>, c: &Coord) -> (r: bool)
    ensures
        r == list@.contains(*c),
{
    let mut i: usize = 0;
    while i < list.len()
        invariant
            i <= list@.len(),
            forall|j: int| 0 <= j < i ==> list@[j] != *c,
        decreases list@.len() - i,
    {
        if list[i] == *c {
            assert(list@[i as int] == *c);
            return true;
        }
        i = i + 1;
    }
    false
}

impl BoardGenerator {
    pub fn new(rng: StdRng) -> BoardGenerator {
        BoardGenerator { rng }
    }

    /// The digits that the filled tiles hold.
    pub fn get_numbers_for_tiles(tiles: &[Tile]) -> (r: SudokuHashSet)
        requires
            forall|i: int| 0 <= i < tiles@.len() ==> tile_ok(#[trigger] tiles@[i]),
        ensures
            forall|d: u8| #[trigger] r@.contains(d) <==> tiles@.contains(Tile::Filled(d)),
    {
        let mut digits: Vec<u8> = Vec::new();
        let mut i: usize = 0;
        while i < tiles.len()
            invariant
                i <= tiles@.len(),
                forall|j: int| 0 <= j < tiles@.len() ==> tile_ok(#[trigger] tiles@[j]),
                forall|j: int| 0 <= j < digits@.len() ==> #[trigger] digits@[j] <= 9,
                forall|d: u8| #[trigger] digits@.contains(d) <==> tiles@.subrange(0, i as int).contains(Tile::Filled(d)),
            decreases tiles@.len() - i,
        {
            let ghost prev_digits = digits@;
            if let Tile::Filled(val) = tiles[i] {
                assert(tile_ok(tiles@[i as int]));
                digits.push(val);
            }
            proof {
                let prev = tiles@.subrange(0, i as int);
                let next = tiles@.subrange(0, i + 1);
                assert forall|d: u8| #[trigger] digits@.contains(d) <==> next.contains(Tile::Filled(d)) by {
                    if next.contains(Tile::Filled(d)) {
                        let j = choose|j: int| 0 <= j < next.len() && next[j] == Tile::Filled(d);
                        if j < i {
                            assert(prev[j] == Tile::Filled(d));
                            assert(prev_digits.contains(d));
                            let k = choose|k: int| 0 <= k < prev_digits.len() && prev_digits[k] == d;
                            assert(digits@[k] == d);
                        } else {
                            assert(digits@[digits@.len() - 1] == d);
                        }
                    }
                    if digits@.contains(d) {
                        let k = choose|k: int| 0 <= k < digits@.len() && digits@[k] == d;
                        if k < prev_digits.len() {
                            assert(prev_digits[k] == d);
                            assert(prev_digits.contains(d));
                            assert(prev.contains(Tile::Filled(d)));
                            let j = choose|j: int| 0 <= j < prev.len() && prev[j] == Tile::Filled(d);
                            assert(next[j] == Tile::Filled(d));
                        } else {
                            assert(next[i as int] == Tile::Filled(d));
                        }
                    }
                }
            }
            i = i + 1;
        }
        assert(tiles@.subrange(0, i as int) =~= tiles@);
        SudokuHashSet::from_digits(digits.as_slice())
    }

    /// Places at `coord` the first digit, in random order among those not
    /// excluded, that leaves the board valid.
    fn update_board_with_random_number(&mut self, board: &Board, coord: &Coord, excluding: &SudokuHashSet) -> (r:
        Result<(u8, Board), BoardGeneratorError>)
        requires
            board.wf(),
            board.valid(),
            coord.valid(),
        ensures
            r matches Ok((d, b)) ==> 1 <= d <= 9 && !excluding@.contains(d) && board.fits(*coord, d) && b.wf()
                && b.valid() && board.updated(*coord, Tile::Filled(d), b),
            r is Err <==> forall|d: u8| 1 <= d <= 9 && !excluding@.contains(d) ==> !#[trigger] board.fits(*coord, d),
            r matches Err(e) ==> e is NoNumberAvailable && forall|c: Board, d: u8|
                #![trigger board.completed_by(c), excluding@.contains(d)]
                board.completed_by(c) && c.cell(coord.x as int, coord.y as int) == Tile::Filled(d)
                    ==> excluding@.contains(d),
    {
        let mut nums: Vec<u8> = Vec::new();
        let mut num: u8 = 1;
        while num <= 9
            invariant
                1 <= num <= 10,
                forall|j: int|
                    0 <= j < nums@.len() ==> 1 <= #[trigger] nums@[j] <= 9 && !excluding@.contains(nums@[j]),
                forall|d: u8| 1 <= d < num && !excluding@.contains(d) ==> #[trigger] nums@.contains(d),
            decreases 10 - num,
        {
            let ghost prev = nums@;
            if !excluding.contains(num) {
                nums.push(num);
                proof {
                    assert(nums@[nums@.len() - 1] == num);
                    assert forall|d: u8| prev.contains(d) implies nums@.contains(d) by {
                        let j = choose|j: int| 0 <= j < prev.len() && prev[j] == d;
                        assert(nums@[j] == d);
                    }
                }
            }
            proof {
                assert forall|d: u8| 1 <= d < num + 1 && !excluding@.contains(d) implies #[trigger] nums@.contains(d) by {
                    if d < num {
                        assert(prev.contains(d));
                    } else {
                        assert(nums@[nums@.len() - 1] == num);
                    }
                }
            }
            num = num + 1;
        }
        let ghost before = nums@;
        shuffle(&mut nums, &mut self.rng);
        proof {
            broadcast use vstd::seq_lib::group_to_multiset_ensures;

            assert forall|j: int| 0 <= j < nums@.len() implies 1 <= #[trigger] nums@[j] <= 9
                && !excluding@.contains(nums@[j]) by {
                assert(nums@.contains(nums@[j]));
                assert(nums@.to_multiset().count(nums@[j]) > 0);
                assert(before.contains(nums@[j]));
            }
            assert forall|d: u8| 1 <= d <= 9 && !excluding@.contains(d) implies #[trigger] nums@.contains(d) by {
                assert(before.contains(d));
                assert(before.to_multiset().count(d) > 0);
            }
        }
        match place_first_fitting(board, coord, &nums) {
            Some(placed) => Ok(placed),
            None => {
                proof {
                    assert forall|c: Board, d: u8|
                        #![trigger board.completed_by(c), excluding@.contains(d)]
                        board.completed_by(c) && c.cell(coord.x as int, coord.y as int) == Tile::Filled(d)
                            implies excluding@.contains(d) by {
                        lemma_completion_fits(*board, c, *coord, d);
                        lemma_wf_tiles(c);
                        assert(tile_ok(c.cell(coord.x as int, coord.y as int)));
                        if !excluding@.contains(d) {
                            assert(nums@.contains(d));
                        }
                    }
                    assert forall|d: u8| 1 <= d <= 9 && !excluding@.contains(d) implies !#[trigger] board.fits(
                        *coord,
                        d,
                    ) by {
                        assert(nums@.contains(d));
                    }
                }
                Err(BoardGeneratorError::NoNumberAvailable)
            },
        }
    }

    /// Completes `board` by randomized backtracking: every empty cell gets a
    /// digit, the digits already there stay, and no digit repeats in a row,
    /// column or block.
    pub fn try_fill_board(&mut self, board: Board) -> (r: Result<Board, BoardGeneratorError>)
        requires
            board.wf(),
        ensures
            r matches Ok(b) ==> board.completed_by(b),
            r matches Err(e) ==> e is NoNumberAvailable && !board.has_completion(),
    {
        if !board.verify_board() {
            proof {
                assert forall|c: Board| !board.completed_by(c) by {
                    if board.completed_by(c) {
                        lemma_valid_of_extension(board, c);
                    }
                }
            }
            return Err(BoardGeneratorError::NoNumberAvailable);
        }
        self.fill_valid_board(board)
    }

    /// The search behind `try_fill_board`, on a board known to be valid.
    fn fill_valid_board(&mut self, board: Board) -> (r: Result<Board, BoardGeneratorError>)
        requires
            board.wf(),
            board.valid(),
        ensures
            r matches Ok(b) ==> board.completed_by(b),
            r matches Err(e) ==> e is NoNumberAvailable && !board.has_completion(),
        decreases 81 - board.filled_count(),
    {
        match first_empty(&board) {
            None => {
                assert(board.extended_by(board));
                Ok(board)
            },
            Some(coord) => {
                let mut excluding_numbers = SudokuHashSet::new();
                loop
                    invariant
                        board.wf(),
                        board.valid(),
                        coord.valid(),
                        board.cell(coord.x as int, coord.y as int) is Empty,
                        forall|d: u8| #[trigger] excluding_numbers@.contains(d) ==> 1 <= d <= 9,
                        forall|c: Board, d: u8|
                            #![trigger board.completed_by(c), excluding_numbers@.contains(d)]
                            board.completed_by(c) && c.cell(coord.x as int, coord.y as int) == Tile::Filled(d)
                                ==> !excluding_numbers@.contains(d),
                    decreases 9 - count_upto(excluding_numbers@, 9),
                {
                    let (num, next) = match self.update_board_with_random_number(
                        &board,
                        &coord,
                        &excluding_numbers,
                    ) {
                        Ok(pair) => pair,
                        Err(err) => {
                            proof {
                                assert forall|c: Board| !board.completed_by(c) by {
                                    if board.completed_by(c) {
                                        let t = c.cell(coord.x as int, coord.y as int);
                                        assert(t is Filled);
                                        let d = t->Filled_0;
                                        assert(excluding_numbers@.contains(d));
                                    }
                                }
                            }
                            return Err(err);
                        },
                    };
                    let ghost before = excluding_numbers@;
                    proof {
                        lemma_count_upto_insert(excluding_numbers@, num, 9);
                        lemma_count_upto_bound(excluding_numbers@.insert(num), 9);
                        lemma_count_fill(board, next, coord, 81);
                        lemma_filled_upto_elems(next, 81);
                    }
                    excluding_numbers.insert(num);
                    match self.fill_valid_board(next) {
                        Ok(filled) => {
                            proof {
                                assert forall|x: int, y: int|
                                    0 <= x < 9 && 0 <= y < 9 && (#[trigger] board.cell(x, y)) is Filled implies filled.cell(
                                    x,
                                    y,
                                ) == board.cell(x, y) by {
                                    assert(next.cell(x, y) == board.cell(x, y));
                                }
                            }
                            return Ok(filled);
                        },
                        Err(BoardGeneratorError::NoNumberAvailable) => {
                            proof {
                                assert forall|c: Board, d: u8|
                                    #![trigger board.completed_by(c), excluding_numbers@.contains(d)]
                                    board.completed_by(c) && c.cell(coord.x as int, coord.y as int) == Tile::Filled(d)
                                        implies !excluding_numbers@.contains(d) by {
                                    if d == num {
                                        assert forall|x: int, y: int|
                                            0 <= x < 9 && 0 <= y < 9 && (#[trigger] next.cell(x, y)) is Filled implies c.cell(
                                            x,
                                            y,
                                        ) == next.cell(x, y) by {
                                            if !(x == coord.x && y == coord.y) {
                                                assert(board.cell(x, y) == next.cell(x, y));
                                            }
                                        }
                                        assert(next.completed_by(c));
                                    }
                                }
                            }
                        },
                        Err(err) => {
                            return Err(err);
                        },
                    }
                }
            },
        }
    }

    /// A solved board, filled by `try_fill_board` from the empty board, which
    /// always has a completion.
    pub fn fill_empty_board(&mut self) -> (r: Board)
        ensures
            r.wf(),
            r.complete(),
            r.valid(),
    {
        let empty = Board::default();
        match self.try_fill_board(empty) {
            Ok(b) => b,
            Err(_) => {
                // Not taken: this solved board completes the empty one, so
                // filling cannot have failed.
                let witness = Board::solved_pattern();
                assert(empty.completed_by(witness));
                witness
            },
        }
    }

    /// A solved board and a clue board carved out of it with exactly
    /// `desired_cells_given` digits left.
    pub fn new_board(&mut self, desired_cells_given: usize) -> (r: Result<(Board, Board), BoardGeneratorError>)
        ensures
            r matches Ok((solved, clue)) ==> solved.wf() && solved.complete() && solved.valid() && clue.wf()
                && clue.filled_count() == desired_cells_given && clue.extended_by(solved)
                && clue.solved_only_by(solved),
            desired_cells_given == 81 ==> (r matches Ok((solved, clue)) ==> clue == solved),
            desired_cells_given == 81 ==> r is Ok,
            r matches Err(e) ==> e is NoDeletionsAvailable,
    {
        let solved_board = self.fill_empty_board();
        proof {
            lemma_complete_count(solved_board, 81);
            assert forall|c: Board| #[trigger] solved_board.completed_by(c) implies c.same_cells(solved_board) by {
                assert forall|x: int, y: int| 0 <= x < 9 && 0 <= y < 9 implies #[trigger] c.cell(x, y)
                    == solved_board.cell(x, y) by {
                    assert(solved_board.cell(x, y) is Filled);
                }
            }
            assert(solved_board.solved_only_by(solved_board));
        }
        let emptied_board = match self.try_empty_board(solved_board, desired_cells_given, Vec::new()) {
            Ok(b) => b,
            Err(e) => {
                return Err(e);
            },
        };
        Ok((solved_board, emptied_board))
    }

    /// Tries the cells of `order` in turn and empties the first one whose digit
    /// no other digit can replace: no solution that keeps the other digits
    /// holds another digit there. Each cell found replaceable before it is
    /// added to `listed`.
    fn carve_one(&mut self, board: Board, order: &Vec<Coord>, listed: &mut Vec<Coord>) -> (r: Option<Board>)
        requires
            board.wf(),
            board.valid(),
            forall|k: int|
                0 <= k < order@.len() ==> (#[trigger] order@[k]).valid() && board.cell(
                    order@[k].x as int,
                    order@[k].y as int,
                ) is Filled,
        ensures
            r matches Some(b) ==> b.wf() && b.valid() && exists|j: int|
                0 <= j < order@.len() && !board.replaceable_at(order@[j]) && board.updated(
                    order@[j],
                    Tile::Empty,
                    b,
                ) && (forall|k: int| 0 <= k < j ==> board.replaceable_at(#[trigger] order@[k]))
                    && final(listed)@ == old(listed)@ + order@.subrange(0, j),
            r is None ==> (forall|k: int| 0 <= k < order@.len() ==> board.replaceable_at(#[trigger] order@[k]))
                && final(listed)@ == old(listed)@ + order@,
    {
        let ghost listed0 = listed@;
        let mut idx: usize = 0;
        while idx < order.len()
            invariant
                board.wf(),
                board.valid(),
                forall|k: int|
                    0 <= k < order@.len() ==> (#[trigger] order@[k]).valid() && board.cell(
                        order@[k].x as int,
                        order@[k].y as int,
                    ) is Filled,
                idx <= order@.len(),
                forall|k: int| 0 <= k < idx ==> board.replaceable_at(#[trigger] order@[k]),
                listed0 == old(listed)@,
                listed@ == listed0 + order@.subrange(0, idx as int),
            decreases order@.len() - idx,
        {
            let c = order[idx];
            assert(c.valid());
            if let Tile::Filled(original_value) = *board.get_tile(&c) {
            let mut has_options = false;
            let mut i: u8 = 1;
            proof {
                assert forall|alt: Board|
                    #[trigger] board.completed_except(alt, c) && alt.cell(c.x as int, c.y as int)->Filled_0 < i
                        implies alt.cell(c.x as int, c.y as int) == Tile::Filled(original_value) by {
                    lemma_wf_tiles(alt);
                    assert(tile_ok(alt.cell(c.x as int, c.y as int)));
                }
            }
            while i <= 9
                invariant
                    board.wf(),
                    board.valid(),
                    c.valid(),
                    1 <= i <= 10,
                    board.cell(c.x as int, c.y as int) == Tile::Filled(original_value),
                    has_options ==> board.replaceable_at(c),
                    !has_options ==> forall|alt: Board|
                        #[trigger] board.completed_except(alt, c) && alt.cell(c.x as int, c.y as int)->Filled_0 < i
                            ==> alt.cell(c.x as int, c.y as int) == Tile::Filled(original_value),
                decreases 10 - i,
            {
                if i != original_value {
                    let updated_board = board.set_tile(&c, Tile::Filled(i));
                    proof {
                        assert forall|alt: Board|
                            board.completed_except(alt, c) && alt.cell(c.x as int, c.y as int)
                                == Tile::Filled(i) implies #[trigger] updated_board.completed_by(alt) by {
                            assert forall|x: int, y: int|
                                0 <= x < 9 && 0 <= y < 9 && (#[trigger] updated_board.cell(x, y)) is Filled implies alt.cell(
                                x,
                                y,
                            ) == updated_board.cell(x, y) by {
                                if !(x == c.x && y == c.y) {
                                    assert(board.cell(x, y) == updated_board.cell(x, y));
                                }
                            }
                        }
                    }
                    proof {
                        lemma_block_mapping(c.x as int, c.y as int, 0, 0);
                        if updated_board.valid() {
                            assert(no_repeat(updated_board.row(c.y as int)));
                            assert(no_repeat(updated_board.column(c.x as int)));
                            assert(no_repeat(updated_board.block(block_of(c.x as int, c.y as int))));
                        }
                    }
                    if !updated_board.verify_around(&c) {
                        proof {
                            assert forall|alt: Board| !#[trigger] updated_board.completed_by(alt) by {
                                if updated_board.completed_by(alt) {
                                    lemma_valid_of_extension(updated_board, alt);
                                }
                            }
                        }
                    } else {
                        proof {
                            lemma_valid_after_change(board, updated_board, c, Tile::Filled(i));
                        }
                        match self.fill_valid_board(updated_board) {
                            Ok(filled) => {
                                proof {
                                    assert forall|x: int, y: int|
                                        0 <= x < 9 && 0 <= y < 9 && !(x == c.x && y == c.y) && (
                                        #[trigger] board.cell(x, y)) is Filled implies filled.cell(x, y)
                                        == board.cell(x, y) by {
                                        assert(updated_board.cell(x, y) == board.cell(x, y));
                                    }
                                    assert(board.completed_except(filled, c));
                                }
                                has_options = true;
                            },
                            Err(BoardGeneratorError::MultipleSolutionsAvailable) => {
                                has_options = true;
                            },
                            Err(BoardGeneratorError::NoNumberAvailable) => {
                                assert(!updated_board.has_completion());
                            },
                            Err(BoardGeneratorError::NoDeletionsAvailable(_)) => {},
                        }
                    }
                    proof {
                        assert forall|alt: Board|
                            !has_options && #[trigger] board.completed_except(alt, c) && alt.cell(
                                c.x as int,
                                c.y as int,
                            )->Filled_0 < i + 1 implies alt.cell(c.x as int, c.y as int) == Tile::Filled(
                            original_value,
                        ) by {
                            lemma_wf_tiles(alt);
                            assert(alt.cell(c.x as int, c.y as int) is Filled);
                            if alt.cell(c.x as int, c.y as int)->Filled_0 == i {
                                assert(updated_board.completed_by(alt));
                            }
                        }
                    }
                }
                i = i + 1;
            }
                if !has_options {
                    let emptied = board.set_tile(&c, Tile::Empty);
                    proof {
                        assert(!board.replaceable_at(c)) by {
                            if board.replaceable_at(c) {
                                let alt = choose|alt: Board|
                                    board.completed_except(alt, c) && alt.cell(c.x as int, c.y as int) != board.cell(
                                        c.x as int,
                                        c.y as int,
                                    );
                                lemma_wf_tiles(alt);
                                assert(tile_ok(alt.cell(c.x as int, c.y as int)));
                            }
                        }
                        assert(listed@ == listed0 + order@.subrange(0, idx as int));
                        assert forall|x: int, y: int|
                            0 <= x < 9 && 0 <= y < 9 && (#[trigger] emptied.cell(x, y)) is Filled implies board.cell(x, y)
                            == emptied.cell(x, y) by {
                            if !(x == c.x && y == c.y) {
                                assert(board.cell(x, y) == emptied.cell(x, y));
                            }
                        }
                        lemma_valid_of_extension(emptied, board);
                        assert(order@[idx as int] == c);
                        assert(!board.replaceable_at(order@[idx as int]));
                    }
                    return Some(emptied);
                }
            }
            listed.push(c);
            proof {
                assert(listed@ =~= listed0 + order@.subrange(0, idx + 1));
            }
            idx = idx + 1;
        }
        proof {
            assert(order@.subrange(0, idx as int) =~= order@);
        }
        None
    }

    /// Empties cells of `board` one at a time, in random order, until
    /// `desired_cells_given` digits are left. A cell is emptied only when no
    /// other digit in its place lets the board be completed; a cell found
    /// otherwise is listed in `unreplacable_coords` and not tried again.
    fn try_empty_board(&mut self, board: Board, desired_cells_given: usize, unreplacable_coords: Vec<Coord>) -> (r:
        Result<Board, BoardGeneratorError>)
        requires
            board.wf(),
            board.valid(),
        ensures
            r matches Ok(b) ==> b.filled_count() == desired_cells_given,
            r matches Err(e) ==> (e matches BoardGeneratorError::NoDeletionsAvailable(b) && b.filled_count()
                != desired_cells_given && forall|p: Coord|
                p.valid() && b.cell(p.x as int, p.y as int) is Filled && !unreplacable_coords@.contains(p)
                    ==> #[trigger] b.replaceable_at(p)),
            carved(r) matches Some(b) ==> b.wf() && b.valid() && b.extended_by(board),
            board.filled_count() == desired_cells_given ==> (r matches Ok(b) && b == board),
            forall|s: Board| #[trigger]
                board.solved_only_by(s) ==> (carved(r) matches Some(b) ==> b.solved_only_by(s)),
            forall|p: Coord|
                p.valid() && #[trigger] unreplacable_coords@.contains(p) ==> (carved(r) matches Some(b) ==> b.cell(
                    p.x as int,
                    p.y as int,
                ) == board.cell(p.x as int, p.y as int)),
    {
        let ghost original = board;
        let ghost listed_before = unreplacable_coords@;
        let mut current = board;
        let mut listed = unreplacable_coords;
        assert(current.extended_by(current));
        loop
            invariant
                original == board,
                listed_before == unreplacable_coords@,
                forall|p: Coord|
                    p.valid() && #[trigger] listed@.contains(p) && !listed_before.contains(p) && current.cell(
                        p.x as int,
                        p.y as int,
                    ) is Filled ==> current.replaceable_at(p),
                forall|s: Board| #[trigger] original.solved_only_by(s) ==> current.solved_only_by(s),
                forall|p: Coord|
                    p.valid() && #[trigger] listed_before.contains(p) ==> current.cell(p.x as int, p.y as int)
                        == original.cell(p.x as int, p.y as int),
                forall|p: Coord| listed_before.contains(p) ==> #[trigger] listed@.contains(p),
                original.valid(),
                current.wf(),
                current.valid(),
                current.extended_by(original),
                original.filled_count() == desired_cells_given ==> current == original,
            decreases current.filled_count(),
        {
            let all = current.get_filled_tile_coords();
            if all.len() == desired_cells_given {
                return Ok(current);
            }
            proof {
                lemma_filled_upto_elems(current, 81);
            }
            let mut filled_coords: Vec<Coord> = Vec::new();
            let mut j: usize = 0;
            while j < all.len()
                invariant
                    all@ == current.filled_coords(),
                    forall|k: int|
                        0 <= k < all@.len() ==> (#[trigger] all@[k]).valid() && current.cell(
                            all@[k].x as int,
                            all@[k].y as int,
                        ) is Filled,
                    forall|k: int|
                        0 <= k < filled_coords@.len() ==> (#[trigger] filled_coords@[k]).valid() && current.cell(
                            filled_coords@[k].x as int,
                            filled_coords@[k].y as int,
                        ) is Filled && !listed_before.contains(filled_coords@[k]),
                    forall|p: Coord| listed_before.contains(p) ==> #[trigger] listed@.contains(p),
                    j <= all@.len(),
                    forall|m: int|
                        0 <= m < j ==> listed@.contains(#[trigger] all@[m]) || filled_coords@.contains(all@[m]),
                decreases all@.len() - j,
            {
                let c = all[j];
                let ghost prev = filled_coords@;
                if !coord_listed(&listed, &c) {
                    filled_coords.push(c);
                }
                proof {
                    assert forall|m: int|
                        0 <= m < j + 1 implies listed@.contains(#[trigger] all@[m]) || filled_coords@.contains(
                        all@[m],
                    ) by {
                        if m < j && prev.contains(all@[m]) {
                            let w = choose|w: int| 0 <= w < prev.len() && prev[w] == all@[m];
                            assert(filled_coords@[w] == all@[m]);
                        }
                        if m == j && !listed@.contains(c) {
                            assert(filled_coords@[filled_coords@.len() - 1] == c);
                        }
                    }
                }
                j = j + 1;
            }
            let ghost before = filled_coords@;
            shuffle(&mut filled_coords, &mut self.rng);
            proof {
                broadcast use vstd::seq_lib::group_to_multiset_ensures;

                assert forall|k: int| 0 <= k < filled_coords@.len() implies (#[trigger] filled_coords@[k]).valid()
                    && current.cell(filled_coords@[k].x as int, filled_coords@[k].y as int) is Filled
                    && !listed_before.contains(filled_coords@[k]) by {
                    assert(filled_coords@.contains(filled_coords@[k]));
                    assert(filled_coords@.to_multiset().count(filled_coords@[k]) > 0);
                    assert(before.contains(filled_coords@[k]));
                }
                assert forall|q: Coord| #[trigger] before.contains(q) implies filled_coords@.contains(q) by {
                    assert(before.to_multiset().count(q) > 0);
                }
            }
            let ghost listed_at_filter = listed@;
            let ghost start = current;
            assert(forall|m: int|
                0 <= m < all@.len() ==> listed_at_filter.contains(#[trigger] all@[m]) || before.contains(all@[m]));
            match self.carve_one(current, &filled_coords, &mut listed) {
                Some(next) => {
                    proof {
                        let j = choose|j: int|
                            0 <= j < filled_coords@.len() && !start.replaceable_at(filled_coords@[j])
                                && start.updated(filled_coords@[j], Tile::Empty, next) && (forall|k: int|
                                0 <= k < j ==> start.replaceable_at(#[trigger] filled_coords@[k])) && listed@
                                == listed_at_filter + filled_coords@.subrange(0, j);
                        let c = filled_coords@[j];
                        lemma_count_fill(next, start, c, 81);
                        assert forall|x: int, y: int|
                            0 <= x < 9 && 0 <= y < 9 && (#[trigger] next.cell(x, y)) is Filled implies start.cell(x, y)
                            == next.cell(x, y) by {
                            if !(x == c.x && y == c.y) {
                                assert(start.cell(x, y) == next.cell(x, y));
                            }
                        }
                        assert forall|x: int, y: int|
                            0 <= x < 9 && 0 <= y < 9 && (#[trigger] next.cell(x, y)) is Filled implies original.cell(x, y)
                            == next.cell(x, y) by {
                            assert(start.cell(x, y) == next.cell(x, y));
                        }
                        assert forall|alt: Board| #[trigger] next.completed_by(alt) implies start.completed_by(alt) by {
                            assert forall|x: int, y: int|
                                0 <= x < 9 && 0 <= y < 9 && !(x == c.x && y == c.y) && (#[trigger] start.cell(x, y)) is Filled
                                    implies alt.cell(x, y) == start.cell(x, y) by {
                                assert(next.cell(x, y) == start.cell(x, y));
                            }
                            assert(start.completed_except(alt, c));
                            if alt.cell(c.x as int, c.y as int) != start.cell(c.x as int, c.y as int) {
                                assert(start.replaceable_at(c));
                            }
                            assert forall|x: int, y: int|
                                0 <= x < 9 && 0 <= y < 9 && (#[trigger] start.cell(x, y)) is Filled implies alt.cell(x, y)
                                == start.cell(x, y) by {
                                if !(x == c.x && y == c.y) {
                                    assert(next.cell(x, y) == start.cell(x, y));
                                }
                            }
                        }
                        assert forall|s: Board| #[trigger] original.solved_only_by(s) implies next.solved_only_by(s) by {
                            assert(start.solved_only_by(s));
                            assert forall|alt: Board| #[trigger] next.completed_by(alt) implies alt.same_cells(s) by {
                                assert(start.completed_by(alt));
                            }
                        }
                        assert(!listed_before.contains(c));
                        assert forall|p: Coord|
                            p.valid() && #[trigger] listed_before.contains(p) implies next.cell(p.x as int, p.y as int)
                            == original.cell(p.x as int, p.y as int) by {
                            assert(!(p.x == c.x && p.y == c.y));
                            assert(next.cell(p.x as int, p.y as int) == start.cell(p.x as int, p.y as int));
                        }
                        assert forall|p: Coord| listed_before.contains(p) implies #[trigger] listed@.contains(p) by {
                            assert(listed_at_filter.contains(p));
                            let w = choose|w: int| 0 <= w < listed_at_filter.len() && listed_at_filter[w] == p;
                            assert(listed@[w] == p);
                        }
                        assert forall|p: Coord|
                            p.valid() && #[trigger] listed@.contains(p) && !listed_before.contains(p) && next.cell(
                                p.x as int,
                                p.y as int,
                            ) is Filled implies next.replaceable_at(p) by {
                            assert(!(p.x == c.x && p.y == c.y));
                            assert(next.cell(p.x as int, p.y as int) == start.cell(p.x as int, p.y as int));
                            let w = choose|w: int| 0 <= w < listed@.len() && listed@[w] == p;
                            if w < listed_at_filter.len() {
                                assert(listed_at_filter[w] == p);
                                assert(listed_at_filter.contains(p));
                            } else {
                                assert(filled_coords@[w - listed_at_filter.len()] == p);
                            }
                            assert(start.replaceable_at(p));
                            lemma_replaceable_after_removal(start, next, p);
                        }
                        lemma_valid_of_extension(next, start);
                    }
                    current = next;
                },
                None => {
                    proof {
                        lemma_filled_upto_has(start, 81);
                        assert forall|p: Coord|
                            p.valid() && current.cell(p.x as int, p.y as int) is Filled && !listed_before.contains(p)
                                implies #[trigger] current.replaceable_at(p) by {
                            assert(Coord { x: p.x, y: p.y } == p);
                            assert(all@.contains(p));
                            let m = choose|m: int| 0 <= m < all@.len() && all@[m] == p;
                            assert(listed_at_filter.contains(all@[m]) || before.contains(all@[m]));
                            if before.contains(p) {
                                assert(filled_coords@.contains(p));
                                let k = choose|k: int| 0 <= k < filled_coords@.len() && filled_coords@[k] == p;
                                assert(start.replaceable_at(filled_coords@[k]));
                            } else {
                                assert(listed_at_filter.contains(p));
                            }
                        }
                    }
                    return Err(BoardGeneratorError::NoDeletionsAvailable(current));
                },
            }
        }
    }
}

} // verus!
