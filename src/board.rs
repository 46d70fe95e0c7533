use vstd::prelude::*;
use vstd::array::array_as_slice;
use crate::digit_set::SudokuHashSet;

verus! {

pub const BOARD_SIZE: u8 = 9;
pub const BLOCK_SIZE: u8 = 3;

/// The content of one cell: empty, or a digit from 1 to 9.
#[derive(Debug, Clone, Copy, PartialEq, Eq, Structural)]
pub enum Tile {
    Empty,
    Filled(u8),
}

/// A tile whose digit, if any, lies in 1..=9.
pub open spec fn tile_ok(t: Tile) -> bool {
    match t {
        Tile::Empty => true,
        Tile::Filled(d) => 1 <= d <= 9,
    }
}

/// No filled digit occurs twice in `s`.
pub open spec fn no_repeat(s: Seq<Tile>) -> bool {
    forall|i: int, j: int|
        0 <= i < s.len() && 0 <= j < s.len() && i != j && s[i] is Filled ==> #[trigger] s[i]
            != #[trigger] s[j]
}

/// A sequence with the same digit twice has a repeat; one without digits, or
/// whose digits are pairwise distinct, has none.
pub proof fn lemma_no_repeat_cases(s: Seq<Tile>)
    ensures
        (exists|i: int, j: int|
            0 <= i < s.len() && 0 <= j < s.len() && i != j && s[i] is Filled && #[trigger] s[i]
                == #[trigger] s[j]) ==> !no_repeat(s),
        (forall|i: int| 0 <= i < s.len() ==> #[trigger] s[i] is Empty) ==> no_repeat(s),
        (forall|i: int, j: int|
            0 <= i < s.len() && 0 <= j < s.len() && i != j ==> #[trigger] s[i] != #[trigger] s[j]) ==> no_repeat(s),
{
}

/// Digit of a fixed solved grid: each row is the one above shifted by three
/// places, and each band of three rows by one more.
pub open spec fn pattern_digit(x: int, y: int) -> int {
    (3 * (y % 3) + y / 3 + x) % 9 + 1
}

/// In the fixed grid no digit repeats in a row, a column or a block.
#[verifier::rlimit(50)]
proof fn lemma_pattern_distinct(k: int, i: int, j: int)
    requires
        0 <= k < 9,
        0 <= i < 9,
        0 <= j < 9,
        i != j,
    ensures
        pattern_digit(i, k) != pattern_digit(j, k),
        pattern_digit(k, i) != pattern_digit(k, j),
        pattern_digit(x_of(k, i), y_of(k, i)) != pattern_digit(x_of(k, j), y_of(k, j)),
{
    assert(pattern_digit(i, k) != pattern_digit(j, k));
    assert(pattern_digit(k, i) != pattern_digit(k, j));
    assert(x_of(k, i) + 3 * (y_of(k, i) % 3) == i + 3 * (k % 3) && y_of(k, i) / 3 == k / 3);
    assert(x_of(k, j) + 3 * (y_of(k, j) % 3) == j + 3 * (k % 3) && y_of(k, j) / 3 == k / 3);
}

/// Block of the cell in column `x` and row `y`.
pub open spec fn block_of(x: int, y: int) -> int {
    (y / 3) * 3 + x / 3
}

/// Place of the cell in column `x` and row `y` within its block.
pub open spec fn slot_of(x: int, y: int) -> int {
    (y % 3) * 3 + x % 3
}

/// Column of the cell at place `i` of block `b`.
pub open spec fn x_of(b: int, i: int) -> int {
    (b % 3) * 3 + i % 3
}

/// Row of the cell at place `i` of block `b`.
pub open spec fn y_of(b: int, i: int) -> int {
    (b / 3) * 3 + i / 3
}

/// Every cell has one (block, place) pair, and every such pair one cell:
/// the two mappings undo each other.
pub proof fn lemma_block_mapping(x: int, y: int, b: int, i: int)
    requires
        0 <= x < 9,
        0 <= y < 9,
        0 <= b < 9,
        0 <= i < 9,
    ensures
        0 <= block_of(x, y) < 9,
        0 <= slot_of(x, y) < 9,
        0 <= x_of(b, i) < 9,
        0 <= y_of(b, i) < 9,
        x_of(block_of(x, y), slot_of(x, y)) == x,
        y_of(block_of(x, y), slot_of(x, y)) == y,
        block_of(x_of(b, i), y_of(b, i)) == b,
        slot_of(x_of(b, i), y_of(b, i)) == i,
{
}

/// No two cells share a (block, place) pair.
pub proof fn lemma_block_mapping_unique(x1: int, y1: int, x2: int, y2: int)
    requires
        0 <= x1 < 9,
        0 <= y1 < 9,
        0 <= x2 < 9,
        0 <= y2 < 9,
        block_of(x1, y1) == block_of(x2, y2),
        slot_of(x1, y1) == slot_of(x2, y2),
    ensures
        x1 == x2 && y1 == y2,
{
    lemma_block_mapping(x1, y1, 0, 0);
    lemma_block_mapping(x2, y2, 0, 0);
}

#[derive(Clone, Copy)]
pub struct BlockCoord;

#[derive(Clone, Copy)]
pub struct TileCoord;

/// A cell: column `x` and row `y`, each in 0..9 on a board.
#[derive(Default, Debug, Clone, Copy, PartialEq, Eq, Structural)]
pub struct Coord {
    pub x: u8,
    pub y: u8,
}

impl Coord {
    pub open spec fn valid(&self) -> bool {
        self.x < 9 && self.y < 9
    }

    pub fn new(x: u8, y: u8) -> (r: Coord)
        ensures
            r.x == x,
            r.y == y,
    {
        Coord { x, y }
    }

    /// Row-major place of the cell in a flat grid of 81.
    pub fn to_vec_position(&self) -> (r: usize)
        ensures
            r == self.y * 9 + self.x,
    {
        self.y as usize * 9 + self.x as usize
    }

    pub fn to_block_index(&self) -> (r: usize)
        ensures
            r == block_of(self.x as int, self.y as int),
    {
        self.y as usize / 3 * 3 + self.x as usize / 3
    }

    pub fn to_index_in_block(&self) -> (r: usize)
        ensures
            r == slot_of(self.x as int, self.y as int),
    {
        self.y as usize % 3 * 3 + self.x as usize % 3
    }
}

/// The 9x9 grid, held three times over: by rows, by columns and by blocks.
#[derive(Clone, Copy)]
pub struct Board {
    rows: [[Tile; 9]; 9],
    columns: [[Tile; 9]; 9],
    blocks: [[Tile; 9]; 9],
}

impl Board {
    /// The tile in column `x` and row `y`.
    pub closed spec fn cell(&self, x: int, y: int) -> Tile {
        self.rows@[y]@[x]
    }

    /// The three views agree, and every digit lies in 1..=9.
    pub closed spec fn wf(&self) -> bool {
        &&& forall|x: int, y: int|
            0 <= x < 9 && 0 <= y < 9 ==> #[trigger] self.columns@[x]@[y] == self.rows@[y]@[x]
        &&& forall|b: int, i: int|
            0 <= b < 9 && 0 <= i < 9 ==> #[trigger] self.blocks@[b]@[i] == self.rows@[y_of(
                b,
                i,
            )]@[x_of(b, i)]
        &&& forall|x: int, y: int| 0 <= x < 9 && 0 <= y < 9 ==> tile_ok(#[trigger] self.rows@[y]@[x])
    }

    /// Row `y`, left to right.
    pub open spec fn row(&self, y: int) -> Seq<Tile> {
        Seq::new(9, |x: int| self.cell(x, y))
    }

    /// Column `x`, top to bottom.
    pub open spec fn column(&self, x: int) -> Seq<Tile> {
        Seq::new(9, |y: int| self.cell(x, y))
    }

    /// Block `b`, in the order of `slot_of`.
    pub open spec fn block(&self, b: int) -> Seq<Tile> {
        Seq::new(9, |i: int| self.cell(x_of(b, i), y_of(b, i)))
    }

    /// No digit repeats in any row, column or block.
    pub open spec fn valid(&self) -> bool {
        forall|k: int|
            #![trigger self.row(k)]
            #![trigger self.column(k)]
            #![trigger self.block(k)]
            0 <= k < 9 ==> no_repeat(self.row(k)) && no_repeat(self.column(k)) && no_repeat(self.block(k))
    }

    /// No cell is empty.
    pub open spec fn complete(&self) -> bool {
        forall|x: int, y: int| 0 <= x < 9 && 0 <= y < 9 ==> #[trigger] self.cell(x, y) is Filled
    }

    /// `other` holds every digit that `self` holds, in the same cell.
    pub open spec fn extended_by(&self, other: Board) -> bool {
        forall|x: int, y: int|
            0 <= x < 9 && 0 <= y < 9 && (#[trigger] self.cell(x, y)) is Filled ==> other.cell(x, y)
                == self.cell(x, y)
    }

    /// `other` is `self` with the cell at `c` replaced by `t`.
    pub open spec fn updated(&self, c: Coord, t: Tile, other: Board) -> bool {
        &&& other.cell(c.x as int, c.y as int) == t
        &&& forall|x: int, y: int|
            0 <= x < 9 && 0 <= y < 9 && !(x == c.x && y == c.y) ==> #[trigger] other.cell(x, y)
                == self.cell(x, y)
    }

    /// `c` is a solution that keeps every digit of `self`.
    pub open spec fn completed_by(&self, c: Board) -> bool {
        c.wf() && c.complete() && c.valid() && self.extended_by(c)
    }

    /// Both boards hold the same tile in every cell.
    pub open spec fn same_cells(&self, other: Board) -> bool {
        forall|x: int, y: int| 0 <= x < 9 && 0 <= y < 9 ==> #[trigger] self.cell(x, y) == other.cell(x, y)
    }

    /// `c` is a solution that keeps every digit of `self` but perhaps the one at `p`.
    pub open spec fn completed_except(&self, c: Board, p: Coord) -> bool {
        &&& c.wf() && c.complete() && c.valid()
        &&& forall|x: int, y: int|
            0 <= x < 9 && 0 <= y < 9 && !(x == p.x && y == p.y) && (#[trigger] self.cell(x, y)) is Filled
                ==> c.cell(x, y) == self.cell(x, y)
    }

    /// Every solution that keeps the digits of `self` is `solution` itself.
    pub open spec fn solved_only_by(&self, solution: Board) -> bool {
        forall|c: Board| #[trigger] self.completed_by(c) ==> c.same_cells(solution)
    }

    /// Digit `d` may stand at `p`: no other cell of its row, column or block holds it.
    pub open spec fn fits(&self, p: Coord, d: u8) -> bool {
        forall|x: int, y: int|
            0 <= x < 9 && 0 <= y < 9 && !(x == p.x && y == p.y) && (y == p.y || x == p.x || block_of(x, y)
                == block_of(p.x as int, p.y as int)) ==> #[trigger] self.cell(x, y) != Tile::Filled(d)
    }

    /// Some solution keeps every digit of `self` but the one at `p`, where it
    /// holds another: emptying `p` would admit a second solution.
    pub open spec fn replaceable_at(&self, p: Coord) -> bool {
        exists|alt: Board|
            self.completed_except(alt, p) && alt.cell(p.x as int, p.y as int) != self.cell(p.x as int, p.y as int)
    }

    /// Some solution keeps every digit of `self`.
    pub open spec fn has_completion(&self) -> bool {
        exists|c: Board| self.completed_by(c)
    }

    /// The cells that hold a digit among the first `k` in column-major order
    /// (column by column, each top to bottom).
    pub open spec fn filled_upto(&self, k: int) -> Seq<Coord>
        decreases k,
    {
        if k <= 0 {
            Seq::empty()
        } else {
            let prev = self.filled_upto(k - 1);
            let x = (k - 1) / 9;
            let y = (k - 1) % 9;
            if self.cell(x, y) is Filled {
                prev.push(Coord { x: x as u8, y: y as u8 })
            } else {
                prev
            }
        }
    }

    /// Every cell that holds a digit, in column-major order.
    pub open spec fn filled_coords(&self) -> Seq<Coord> {
        self.filled_upto(81)
    }

    /// The number of cells that hold a digit.
    pub open spec fn filled_count(&self) -> nat {
        self.filled_coords().len()
    }

    pub fn get_tile(&self, coord: &Coord) -> (r: &Tile)
        requires
            coord.valid(),
        ensures
            *r == self.cell(coord.x as int, coord.y as int),
    {
        &self.rows[coord.y as usize][coord.x as usize]
    }

    pub fn set_tile(&self, coord: &Coord, value: Tile) -> (r: Board)
        requires
            self.wf(),
            coord.valid(),
            tile_ok(value),
        ensures
            r.wf(),
            self.updated(*coord, value, r),
    {
        let mut result = *self;
        result.set_tile_in_place(coord, value);
        result
    }

    pub fn set_tile_in_place(&mut self, coord: &Coord, value: Tile)
        requires
            old(self).wf(),
            coord.valid(),
            tile_ok(value),
        ensures
            final(self).wf(),
            old(self).updated(*coord, value, *final(self)),
    {
        let x = coord.x as usize;
        let y = coord.y as usize;
        let b = coord.to_block_index();
        let i = coord.to_index_in_block();
        proof {
            lemma_block_mapping(x as int, y as int, 0, 0);
        }
        self.rows[y][x] = value;
        self.columns[x][y] = value;
        self.blocks[b][i] = value;
        proof {
            assert forall|bb: int, ii: int| 0 <= bb < 9 && 0 <= ii < 9 implies #[trigger] self.blocks@[bb]@[ii]
                == self.rows@[y_of(bb, ii)]@[x_of(bb, ii)] by {
                lemma_block_mapping(0, 0, bb, ii);
                if x_of(bb, ii) == x && y_of(bb, ii) == y {
                    assert(bb == b && ii == i);
                } else if bb == b && ii == i {
                    assert(false);
                }
            }
        }
    }

    pub fn get_row_for_coord(&self, coord: &Coord) -> (r: &[Tile])
        requires
            self.wf(),
            coord.valid(),
        ensures
            r@ == self.row(coord.y as int),
    {
        let r = array_as_slice(&self.rows[coord.y as usize]);
        assert(r@ =~= self.row(coord.y as int));
        r
    }

    pub fn get_column_for_coord(&self, coord: &Coord) -> (r: &[Tile])
        requires
            self.wf(),
            coord.valid(),
        ensures
            r@ == self.column(coord.x as int),
    {
        let r = array_as_slice(&self.columns[coord.x as usize]);
        assert(r@ =~= self.column(coord.x as int));
        r
    }

    /// The block that holds the cell at `coord`.
    pub fn get_block_for_coord(&self, coord: &Coord) -> (r: &[Tile])
        requires
            self.wf(),
            coord.valid(),
        ensures
            r@ == self.block(block_of(coord.x as int, coord.y as int)),
    {
        let b = coord.to_block_index();
        proof {
            lemma_block_mapping(coord.x as int, coord.y as int, 0, 0);
        }
        let r = array_as_slice(&self.blocks[b]);
        assert(r@ =~= self.block(b as int));
        r
    }

    /// A fixed solved board: the one of `pattern_digit`.
    pub fn solved_pattern() -> (r: Board)
        ensures
            r.wf(),
            r.complete(),
            r.valid(),
            forall|x: int, y: int|
                0 <= x < 9 && 0 <= y < 9 ==> #[trigger] r.cell(x, y) == Tile::Filled(pattern_digit(x, y) as u8),
    {
        let mut r = Board::default();
        let mut x: u8 = 0;
        while x < 9
            invariant
                x <= 9,
                r.wf(),
                forall|xx: int, yy: int|
                    0 <= xx < 9 && 0 <= yy < 9 ==> #[trigger] r.cell(xx, yy) == if xx < x {
                        Tile::Filled(pattern_digit(xx, yy) as u8)
                    } else {
                        Tile::Empty
                    },
            decreases 9 - x,
        {
            let mut y: u8 = 0;
            while y < 9
                invariant
                    x < 9,
                    y <= 9,
                    r.wf(),
                    forall|xx: int, yy: int|
                        0 <= xx < 9 && 0 <= yy < 9 ==> #[trigger] r.cell(xx, yy) == if xx < x || (xx == x
                            && yy < y) {
                            Tile::Filled(pattern_digit(xx, yy) as u8)
                        } else {
                            Tile::Empty
                        },
                decreases 9 - y,
            {
                let digit = (3 * (y % 3) + y / 3 + x) % 9 + 1;
                r.set_tile_in_place(&Coord::new(x, y), Tile::Filled(digit));
                y = y + 1;
            }
            x = x + 1;
        }
        assert forall|k: int| 0 <= k < 9 implies no_repeat(#[trigger] r.row(k)) && no_repeat(r.column(k))
            && no_repeat(r.block(k)) by {
            assert forall|i: int, j: int|
                0 <= i < 9 && 0 <= j < 9 && i != j implies r.row(k)[i] != r.row(k)[j] && r.column(k)[i]
                != r.column(k)[j] && r.block(k)[i] != r.block(k)[j] by {
                lemma_pattern_distinct(k, i, j);
                lemma_block_mapping(0, 0, k, i);
                lemma_block_mapping(0, 0, k, j);
            }
        }
        r
    }

    /// Whether no digit repeats in any row, column or block.
    pub fn verify_board(&self) -> (r: bool)
        requires
            self.wf(),
        ensures
            r == self.valid(),
    {
        let mut k: u8 = 0;
        while k < 9
            invariant
                k <= 9,
                self.wf(),
                forall|j: int|
                    0 <= j < k ==> no_repeat(#[trigger] self.row(j)) && no_repeat(self.column(j))
                        && no_repeat(self.block(j)),
            decreases 9 - k,
        {
            let coord = Coord::new(0, k);
            let row = self.get_row_for_coord(&coord);
            proof {
                assert forall|i: int| 0 <= i < row@.len() implies tile_ok(#[trigger] row@[i]) by {
                    assert(tile_ok(self.rows@[k as int]@[i]));
                }
            }
            if !Board::is_valid_tile_set(row) {
                return false;
            }
            let coord = Coord::new(k, 0);
            let column = self.get_column_for_coord(&coord);
            proof {
                assert forall|i: int| 0 <= i < column@.len() implies tile_ok(#[trigger] column@[i]) by {
                    assert(tile_ok(self.rows@[i]@[k as int]));
                }
            }
            if !Board::is_valid_tile_set(column) {
                return false;
            }
            let block = array_as_slice(&self.blocks[k as usize]);
            proof {
                assert forall|i: int| 0 <= i < 9 implies block@[i] == self.block(k as int)[i] by {
                    lemma_block_mapping(0, 0, k as int, i);
                }
                assert(block@ =~= self.block(k as int));
                assert forall|i: int| 0 <= i < block@.len() implies tile_ok(#[trigger] block@[i]) by {
                    lemma_block_mapping(0, 0, k as int, i);
                    assert(tile_ok(self.rows@[y_of(k as int, i)]@[x_of(k as int, i)]));
                }
            }
            if !Board::is_valid_tile_set(block) {
                return false;
            }
            k = k + 1;
        }
        true
    }

    /// Whether no digit repeats in the row, column and block of `coord`.
    pub fn verify_around(&self, coord: &Coord) -> (r: bool)
        requires
            self.wf(),
            coord.valid(),
        ensures
            r == (no_repeat(self.row(coord.y as int)) && no_repeat(self.column(coord.x as int)) && no_repeat(
                self.block(block_of(coord.x as int, coord.y as int)),
            )),
    {
        proof {
            lemma_block_mapping(coord.x as int, coord.y as int, 0, 0);
        }
        let row = self.get_row_for_coord(coord);
        proof {
            assert forall|i: int| 0 <= i < row@.len() implies tile_ok(#[trigger] row@[i]) by {
                assert(tile_ok(self.rows@[coord.y as int]@[i]));
            }
        }
        if !Board::is_valid_tile_set(row) {
            return false;
        }
        let column = self.get_column_for_coord(coord);
        proof {
            assert forall|i: int| 0 <= i < column@.len() implies tile_ok(#[trigger] column@[i]) by {
                assert(tile_ok(self.rows@[i]@[coord.x as int]));
            }
        }
        if !Board::is_valid_tile_set(column) {
            return false;
        }
        let block = self.get_block_for_coord(coord);
        proof {
            let b = block_of(coord.x as int, coord.y as int);
            assert forall|i: int| 0 <= i < block@.len() implies tile_ok(#[trigger] block@[i]) by {
                lemma_block_mapping(0, 0, b, i);
                assert(tile_ok(self.rows@[y_of(b, i)]@[x_of(b, i)]));
            }
        }
        Board::is_valid_tile_set(block)
    }

    /// Whether no cell is empty.
    pub fn is_complete(&self) -> (r: bool)
        ensures
            r == self.complete(),
    {
        let mut y: usize = 0;
        while y < 9
            invariant
                y <= 9,
                forall|x: int, yy: int| 0 <= x < 9 && 0 <= yy < y ==> #[trigger] self.cell(x, yy) is Filled,
            decreases 9 - y,
        {
            let mut x: usize = 0;
            while x < 9
                invariant
                    y < 9,
                    x <= 9,
                    forall|xx: int, yy: int| 0 <= xx < 9 && 0 <= yy < y ==> #[trigger] self.cell(xx, yy) is Filled,
                    forall|xx: int| 0 <= xx < x ==> #[trigger] self.cell(xx, y as int) is Filled,
                decreases 9 - x,
            {
                if let Tile::Empty = self.rows[y][x] {
                    assert(!(self.cell(x as int, y as int) is Filled));
                    return false;
                }
                x = x + 1;
            }
            y = y + 1;
        }
        true
    }

    /// Whether no filled digit repeats among `tiles`.
    pub fn is_valid_tile_set(tiles: &[Tile]) -> (r: bool)
        requires
            forall|i: int| 0 <= i < tiles@.len() ==> tile_ok(#[trigger] tiles@[i]),
        ensures
            r == no_repeat(tiles@),
    {
        let mut seen_numbers = SudokuHashSet::new();
        let mut i: usize = 0;
        while i < tiles.len()
            invariant
                i <= tiles@.len(),
                forall|j: int| 0 <= j < tiles@.len() ==> tile_ok(#[trigger] tiles@[j]),
                forall|d: u8|
                    #[trigger] seen_numbers@.contains(d) <==> exists|j: int|
                        0 <= j < i && tiles@[j] == Tile::Filled(d),
                no_repeat(tiles@.subrange(0, i as int)),
            decreases tiles@.len() - i,
        {
            let tile = tiles[i];
            match tile {
                Tile::Empty => {},
                Tile::Filled(num) => {
                    assert(tile_ok(tiles@[i as int]));
                    if seen_numbers.contains(num) {
                        let ghost j = choose|j: int| 0 <= j < i && tiles@[j] == Tile::Filled(num);
                        assert(tiles@[j] == tiles@[i as int]);
                        return false;
                    }
                    seen_numbers.insert(num);
                },
            }
            proof {
                let s = tiles@.subrange(0, i + 1);
                let p = tiles@.subrange(0, i as int);
                assert forall|a: int, b: int|
                    0 <= a < s.len() && 0 <= b < s.len() && a != b && s[a] is Filled implies #[trigger] s[a]
                        != #[trigger] s[b] by {
                    if a < i && b < i {
                        assert(s[a] == p[a] && s[b] == p[b]);
                    } else if a == i {
                        if s[a] == s[b] {
                            assert(tiles@[b] == tile);
                        }
                    } else {
                        if s[a] == s[b] {
                            assert(tiles@[a] == tile);
                        }
                    }
                }
            }
            i = i + 1;
        }
        assert(tiles@.subrange(0, i as int) =~= tiles@);
        true
    }

    /// Every cell that holds a digit, in column-major order.
    pub fn get_filled_tile_coords(&self) -> (r: Vec<Coord>)
        ensures
            r@ == self.filled_coords(),
    {
        let mut filled_coords: Vec<Coord> = Vec::new();
        let mut x: u8 = 0;
        while x < 9
            invariant
                x <= 9,
                filled_coords@ == self.filled_upto(x * 9),
            decreases 9 - x,
        {
            let mut y: u8 = 0;
            while y < 9
                invariant
                    x < 9,
                    y <= 9,
                    filled_coords@ == self.filled_upto(x * 9 + y),
                decreases 9 - y,
            {
                let coord = Coord::new(x, y);
                assert((x * 9 + y) / 9 == x && (x * 9 + y) % 9 == y) by (nonlinear_arith)
                    requires
                        y < 9,
                ;
                match self.get_tile(&coord) {
                    Tile::Empty => {},
                    Tile::Filled(_) => {
                        filled_coords.push(coord);
                    },
                }
                y = y + 1;
            }
            x = x + 1;
        }
        filled_coords
    }
}

/// Every tile of a well-formed board is empty or holds a digit in 1..=9.
pub proof fn lemma_wf_tiles(b: Board)
    requires
        b.wf(),
    ensures
        forall|x: int, y: int| 0 <= x < 9 && 0 <= y < 9 ==> tile_ok(#[trigger] b.cell(x, y)),
{
}

/// Removing digits from a sequence keeps it free of repeats.
proof fn lemma_no_repeat_sub(s: Seq<Tile>, t: Seq<Tile>)
    requires
        s.len() == t.len(),
        forall|i: int| 0 <= i < s.len() && (#[trigger] s[i]) is Filled ==> t[i] == s[i],
        no_repeat(t),
    ensures
        no_repeat(s),
{
    assert forall|i: int, j: int|
        0 <= i < s.len() && 0 <= j < s.len() && i != j && s[i] is Filled implies #[trigger] s[i]
            != #[trigger] s[j] by {
        if s[i] == s[j] {
            assert(t[i] == t[j]);
        }
    }
}

/// A board whose digits all stand in a valid board is valid itself.
pub proof fn lemma_valid_of_extension(a: Board, c: Board)
    requires
        a.extended_by(c),
        c.valid(),
    ensures
        a.valid(),
{
    assert forall|k: int| 0 <= k < 9 implies no_repeat(#[trigger] a.row(k)) && no_repeat(a.column(k))
        && no_repeat(a.block(k)) by {
        let ck = c.row(k);
        assert(no_repeat(ck));
        lemma_no_repeat_sub(a.row(k), c.row(k));
        lemma_no_repeat_sub(a.column(k), c.column(k));
        assert forall|i: int| 0 <= i < 9 && (#[trigger] a.block(k)[i]) is Filled implies c.block(k)[i]
            == a.block(k)[i] by {
            lemma_block_mapping(0, 0, k, i);
        }
        lemma_no_repeat_sub(a.block(k), c.block(k));
    }
}

/// Changing one cell of a valid board leaves it valid when the row, column
/// and block through that cell have no repeat: no other one changed.
pub proof fn lemma_valid_after_change(a: Board, b: Board, p: Coord, t: Tile)
    requires
        a.valid(),
        p.valid(),
        a.updated(p, t, b),
        no_repeat(b.row(p.y as int)),
        no_repeat(b.column(p.x as int)),
        no_repeat(b.block(block_of(p.x as int, p.y as int))),
    ensures
        b.valid(),
{
    assert forall|k: int| 0 <= k < 9 implies no_repeat(#[trigger] b.row(k)) && no_repeat(b.column(k))
        && no_repeat(b.block(k)) by {
        let ak = a.row(k);
        assert(no_repeat(ak));
        if k != p.y {
            assert(b.row(k) =~= a.row(k));
        }
        if k != p.x {
            assert(b.column(k) =~= a.column(k));
        }
        if k != block_of(p.x as int, p.y as int) {
            assert forall|i: int| 0 <= i < 9 implies b.block(k)[i] == a.block(k)[i] by {
                lemma_block_mapping(0, 0, k, i);
            }
            assert(b.block(k) =~= a.block(k));
        }
    }
}

/// On a valid board, the row, column and block through `p` stay free of
/// repeats after `d` is written at `p` exactly when `d` fits there.
pub proof fn lemma_fits_iff_local(a: Board, b: Board, p: Coord, d: u8)
    requires
        a.valid(),
        p.valid(),
        a.updated(p, Tile::Filled(d), b),
    ensures
        a.fits(p, d) <==> (no_repeat(b.row(p.y as int)) && no_repeat(b.column(p.x as int)) && no_repeat(
            b.block(block_of(p.x as int, p.y as int)),
        )),
{
    let px = p.x as int;
    let py = p.y as int;
    let bp = block_of(px, py);
    lemma_block_mapping(px, py, 0, 0);
    let (ar, ac, ab) = (a.row(py), a.column(px), a.block(bp));
    assert(no_repeat(ar) && no_repeat(ac) && no_repeat(ab));
    if a.fits(p, d) {
        assert forall|i: int, j: int|
            0 <= i < 9 && 0 <= j < 9 && i != j && b.row(py)[i] is Filled implies #[trigger] b.row(py)[i]
                != #[trigger] b.row(py)[j] by {
            if i != px && j != px {
                assert(ar[i] == b.row(py)[i] && ar[j] == b.row(py)[j]);
            } else if i == px {
                assert(a.cell(j, py) != Tile::Filled(d));
            } else {
                assert(a.cell(i, py) != Tile::Filled(d));
            }
        }
        assert forall|i: int, j: int|
            0 <= i < 9 && 0 <= j < 9 && i != j && b.column(px)[i] is Filled implies #[trigger] b.column(px)[i]
                != #[trigger] b.column(px)[j] by {
            if i != py && j != py {
                assert(ac[i] == b.column(px)[i] && ac[j] == b.column(px)[j]);
            } else if i == py {
                assert(a.cell(px, j) != Tile::Filled(d));
            } else {
                assert(a.cell(px, i) != Tile::Filled(d));
            }
        }
        assert forall|i: int, j: int|
            0 <= i < 9 && 0 <= j < 9 && i != j && b.block(bp)[i] is Filled implies #[trigger] b.block(bp)[i]
                != #[trigger] b.block(bp)[j] by {
            lemma_block_mapping(0, 0, bp, i);
            lemma_block_mapping(0, 0, bp, j);
            let (xi, yi, xj, yj) = (x_of(bp, i), y_of(bp, i), x_of(bp, j), y_of(bp, j));
            let pi = xi == px && yi == py;
            let pj = xj == px && yj == py;
            if pi {
                assert(!pj);
                assert(a.cell(xj, yj) != Tile::Filled(d));
            } else if pj {
                assert(a.cell(xi, yi) != Tile::Filled(d));
            } else {
                assert(ab[i] == b.block(bp)[i] && ab[j] == b.block(bp)[j]);
            }
        }
    }
    if no_repeat(b.row(py)) && no_repeat(b.column(px)) && no_repeat(b.block(bp)) {
        assert forall|x: int, y: int|
            0 <= x < 9 && 0 <= y < 9 && !(x == px && y == py) && (y == py || x == px || block_of(x, y) == bp)
                implies #[trigger] a.cell(x, y) != Tile::Filled(d) by {
            if a.cell(x, y) == Tile::Filled(d) {
                assert(b.cell(x, y) == Tile::Filled(d));
                if y == py {
                    assert(b.row(py)[x] == b.row(py)[px]);
                } else if x == px {
                    assert(b.column(px)[y] == b.column(px)[py]);
                } else {
                    lemma_block_mapping(x, y, 0, 0);
                    let (si, sp) = (slot_of(x, y), slot_of(px, py));
                    assert(si != sp);
                    assert(b.block(bp)[si] == b.block(bp)[sp]);
                }
            }
        }
    }
}

/// A digit that some solution keeping the board's digits places at `p` fits there.
pub proof fn lemma_completion_fits(a: Board, c: Board, p: Coord, d: u8)
    requires
        a.completed_by(c),
        p.valid(),
        c.cell(p.x as int, p.y as int) == Tile::Filled(d),
    ensures
        a.fits(p, d),
{
    let px = p.x as int;
    let py = p.y as int;
    let bp = block_of(px, py);
    lemma_block_mapping(px, py, 0, 0);
    assert(no_repeat(c.row(py)) && no_repeat(c.column(px)) && no_repeat(c.block(bp)));
    assert forall|x: int, y: int|
        0 <= x < 9 && 0 <= y < 9 && !(x == px && y == py) && (y == py || x == px || block_of(x, y) == bp)
            implies #[trigger] a.cell(x, y) != Tile::Filled(d) by {
        if a.cell(x, y) == Tile::Filled(d) {
            assert(c.cell(x, y) == Tile::Filled(d));
            if y == py {
                assert(c.row(py)[x] == c.row(py)[px]);
            } else if x == px {
                assert(c.column(px)[y] == c.column(px)[py]);
            } else {
                lemma_block_mapping(x, y, 0, 0);
                let (si, sp) = (slot_of(x, y), slot_of(px, py));
                assert(c.block(bp)[si] == c.block(bp)[sp]);
            }
        }
    }
}

/// A cell that can take another digit still can once other digits are removed.
pub proof fn lemma_replaceable_after_removal(a: Board, b: Board, p: Coord)
    requires
        p.valid(),
        a.replaceable_at(p),
        b.extended_by(a),
        b.cell(p.x as int, p.y as int) == a.cell(p.x as int, p.y as int),
    ensures
        b.replaceable_at(p),
{
    let alt = choose|alt: Board|
        a.completed_except(alt, p) && alt.cell(p.x as int, p.y as int) != a.cell(p.x as int, p.y as int);
    assert forall|x: int, y: int|
        0 <= x < 9 && 0 <= y < 9 && !(x == p.x && y == p.y) && (#[trigger] b.cell(x, y)) is Filled implies alt.cell(
        x,
        y,
    ) == b.cell(x, y) by {
        assert(a.cell(x, y) == b.cell(x, y));
    }
    assert(b.completed_except(alt, p));
}

/// Every cell that holds a digit among the first `k` is listed.
pub proof fn lemma_filled_upto_has(b: Board, k: int)
    requires
        0 <= k <= 81,
    ensures
        forall|x: int, y: int|
            0 <= x < 9 && 0 <= y < 9 && x * 9 + y < k && (#[trigger] b.cell(x, y)) is Filled ==> b.filled_upto(
                k,
            ).contains(Coord { x: x as u8, y: y as u8 }),
    decreases k,
{
    if k > 0 {
        lemma_filled_upto_has(b, k - 1);
        let prev = b.filled_upto(k - 1);
        let cur = b.filled_upto(k);
        assert forall|x: int, y: int|
            0 <= x < 9 && 0 <= y < 9 && x * 9 + y < k && (#[trigger] b.cell(x, y)) is Filled implies cur.contains(
            Coord { x: x as u8, y: y as u8 },
        ) by {
            let q = Coord { x: x as u8, y: y as u8 };
            if x * 9 + y < k - 1 {
                assert(prev.contains(q));
                let j = choose|j: int| 0 <= j < prev.len() && prev[j] == q;
                assert(cur[j] == q);
            } else {
                assert((k - 1) / 9 == x && (k - 1) % 9 == y);
                assert(cur[cur.len() - 1] == q);
            }
        }
    }
}

/// Each coordinate listed among the first `k` cells is on the board, holds a
/// digit, and comes before place `k` in column-major order.
pub proof fn lemma_filled_upto_elems(b: Board, k: int)
    requires
        0 <= k <= 81,
    ensures
        b.filled_upto(k).len() <= k,
        forall|i: int|
            0 <= i < b.filled_upto(k).len() ==> (#[trigger] b.filled_upto(k)[i]).valid()
                && b.cell(b.filled_upto(k)[i].x as int, b.filled_upto(k)[i].y as int) is Filled
                && b.filled_upto(k)[i].x * 9 + b.filled_upto(k)[i].y < k,
    decreases k,
{
    if k > 0 {
        lemma_filled_upto_elems(b, k - 1);
    }
}

/// Filling one empty cell adds exactly one to the count of filled cells
/// among those before `k` that include it.
pub proof fn lemma_count_fill(a: Board, b: Board, c: Coord, k: int)
    requires
        0 <= k <= 81,
        c.valid(),
        a.cell(c.x as int, c.y as int) is Empty,
        b.cell(c.x as int, c.y as int) is Filled,
        forall|x: int, y: int|
            0 <= x < 9 && 0 <= y < 9 && !(x == c.x && y == c.y) ==> #[trigger] b.cell(x, y) == a.cell(x, y),
    ensures
        b.filled_upto(k).len() == a.filled_upto(k).len() + (if c.x * 9 + c.y < k { 1int } else { 0int }),
    decreases k,
{
    if k > 0 {
        lemma_count_fill(a, b, c, k - 1);
        let x = (k - 1) / 9;
        let y = (k - 1) % 9;
        assert((x == c.x && y == c.y) <==> k - 1 == c.x * 9 + c.y);
    }
}

/// On a complete board every cell is counted.
pub proof fn lemma_complete_count(b: Board, k: int)
    requires
        0 <= k <= 81,
        b.complete(),
    ensures
        b.filled_upto(k).len() == k,
    decreases k,
{
    if k > 0 {
        lemma_complete_count(b, k - 1);
        assert(b.cell((k - 1) / 9, (k - 1) % 9) is Filled);
    }
}

impl Default for Board {
    /// The board with no digit.
    fn default() -> (r: Board)
        ensures
            r.wf(),
            forall|x: int, y: int| 0 <= x < 9 && 0 <= y < 9 ==> #[trigger] r.cell(x, y) is Empty,
    {
        Board {
            rows: [[Tile::Empty; 9]; 9],
            columns: [[Tile::Empty; 9]; 9],
            blocks: [[Tile::Empty; 9]; 9],
        }
    }
}

} // verus!
