//! The 81-cell board: coordinate arithmetic, construction from a digit grid,
//! superposition initialization, and the solved-state query.

use vstd::prelude::*;

use crate::cell::Cell;
use crate::cell::CellModel;
use crate::cell::is_determined;

verus! {

/// Side length of one 3x3 block.
pub const BOARD_SEP: usize = 3;

/// Side length of the board, and number of candidate digits.
pub const BOARD_LEN: usize = 9;

/// Total number of cells.
pub const BOARD_SIZE: usize = 81;

/// Row number of the cell at linear index `i`.
pub open spec fn row_of(i: int) -> int {
    i / 9
}

/// Column number of the cell at linear index `i`.
pub open spec fn col_of(i: int) -> int {
    i % 9
}

/// Linear index of the first cell of the row of `i`.
pub open spec fn row_first(i: int) -> int {
    9 * (i / 9)
}

/// Linear index of the top-left cell of the 3x3 block of `i`.
pub open spec fn block_first(i: int) -> int {
    27 * (row_of(i) / 3) + 3 * (col_of(i) / 3)
}

pub open spec fn same_row(i: int, j: int) -> bool {
    row_of(i) == row_of(j)
}

pub open spec fn same_col(i: int, j: int) -> bool {
    col_of(i) == col_of(j)
}

pub open spec fn same_block(i: int, j: int) -> bool {
    block_first(i) == block_first(j)
}

/// Do `i` and `j` share a row, a column, or a 3x3 block?
pub open spec fn same_group(i: int, j: int) -> bool {
    same_row(i, j) || same_col(i, j) || same_block(i, j)
}

/// Linear index of the cell of the block of `i` at block-local position `t`
/// (row-major over the nine block cells).
pub open spec fn block_cell(i: int, t: int) -> int {
    block_first(i) + 9 * (t / 3) + t % 3
}

/// Every board cell is a clue in 1..=9, a deduced digit in 1..=9, or a
/// superposition of nine candidate flags; blanks are gone once the board
/// is initialized.
pub open spec fn wf_cell(c: CellModel) -> bool {
    match c {
        CellModel::Empty => false,
        CellModel::Fixed(v) => 1 <= v <= 9,
        CellModel::Collapsed(v) => 1 <= v <= 9,
        CellModel::Super(s) => s.len() == 9,
    }
}

/// A well-formed (initialized) board: 81 well-formed cells.
pub open spec fn wf_board(g: Seq<CellModel>) -> bool {
    g.len() == 81 && forall|i: int| 0 <= i < 81 ==> wf_cell(#[trigger] g[i])
}

/// Is every cell of the board determined?
pub open spec fn is_solved_spec(g: Seq<CellModel>) -> bool {
    forall|i: int| 0 <= i < g.len() ==> is_determined(#[trigger] g[i])
}

/// Solving only narrows: a determined cell (given or deduced) keeps its exact
/// value when the board goes from `g1` to `g2`.
pub open spec fn determined_preserved(g1: Seq<CellModel>, g2: Seq<CellModel>) -> bool {
    &&& g2.len() == g1.len()
    &&& forall|j: int| 0 <= j < g1.len() && is_determined(#[trigger] g1[j]) ==> g2[j] == g1[j]
}

pub proof fn lemma_determined_preserved_trans(a: Seq<CellModel>, b: Seq<CellModel>, c: Seq<CellModel>)
    requires
        determined_preserved(a, b),
        determined_preserved(b, c),
    ensures
        determined_preserved(a, c),
{
}

/// A 9x9 Sudoku board, stored row-major.
#[derive(Clone, Copy, Debug, PartialEq)]
pub struct Sudoku {
    grid: [Cell; 81],
}

impl View for Sudoku {
    type V = Seq<CellModel>;

    closed spec fn view(&self) -> Seq<CellModel> {
        Seq::new(81, |i: int| self.grid@[i]@)
    }
}

/// A board always views as exactly 81 cells.
pub broadcast proof fn lemma_view_len(s: &Sudoku)
    ensures
        (#[trigger] s@).len() == 81,
{
}

impl Default for Sudoku {
    /// The blank board: 81 `Empty` cells.
    fn default() -> (r: Self)
        ensures
            r@.len() == 81,
            forall|i: int| 0 <= i < 81 ==> #[trigger] r@[i] == CellModel::Empty,
    {
        let grid: [Cell; 81] = [Cell::Empty; 81];
        let r = Sudoku { grid };
        proof {
            assert(grid == vstd::array::spec_array_fill_for_copy_type::<Cell, 81>(Cell::Empty));
            assert forall|i: int| 0 <= i < 81 implies #[trigger] r@[i] == CellModel::Empty by {
                assert(r.grid@[i] == Cell::Empty);
            }
        }
        r
    }
}

impl Sudoku {
    /// The cell at linear index `idx`.
    pub fn cell(&self, idx: usize) -> (c: Cell)
        requires
            idx < 81,
        ensures
            c@ == self@[idx as int],
    {
        self.grid[idx]
    }

    /// Overwrite the cell at linear index `idx`.
    pub(crate) fn set_cell(&mut self, idx: usize, c: Cell)
        requires
            idx < 81,
        ensures
            final(self)@ == old(self)@.update(idx as int, c@),
    {
        self.grid[idx] = c;
        proof {
            assert(self@ =~= old(self)@.update(idx as int, c@));
        }
    }

    /// Linear index of the cell at `(row, col)`.
    pub fn coord_to_idx(coord: (usize, usize)) -> (r: usize)
        requires
            coord.0 < 9,
            coord.1 < 9,
        ensures
            r == coord.0 * 9 + coord.1,
            r < 81,
    {
        let (row, col) = coord;
        row * BOARD_LEN + col
    }

    /// `(row, col)` of the cell at linear index `idx`.
    pub fn idx_to_coord(idx: usize) -> (r: (usize, usize))
        requires
            idx < 81,
        ensures
            r.0 == row_of(idx as int),
            r.1 == col_of(idx as int),
            r.0 < 9,
            r.1 < 9,
    {
        let row = idx / BOARD_LEN;
        let col = idx % BOARD_LEN;
        (row, col)
    }

    /// Linear index of the first cell of the row of `idx`.
    pub fn row_idx(idx: usize) -> (r: usize)
        requires
            idx < 81,
        ensures
            r == row_first(idx as int),
            r <= 72,
            r % 9 == 0,
    {
        let row = idx / BOARD_LEN;
        row * BOARD_LEN
    }

    /// Linear index of the top cell of the column of `idx`.
    pub fn col_idx(idx: usize) -> (r: usize)
        requires
            idx < 81,
        ensures
            r == col_of(idx as int),
            r < 9,
    {
        idx % BOARD_LEN
    }

    /// Linear index of the top-left cell of the 3x3 block of `idx`.
    pub fn subsection_idx(idx: usize) -> (r: usize)
        requires
            idx < 81,
        ensures
            r == block_first(idx as int),
            r < 81,
    {
        let (mut row, mut col) = Sudoku::idx_to_coord(idx);
        row = row - row % BOARD_SEP;
        col = col - col % BOARD_SEP;
        let r = row * BOARD_LEN + col;
        proof {
            assert(r == block_first(idx as int));
        }
        r
    }

    /// Build a board from a 9x9 digit grid: 0 becomes a blank, 1..=9 a given
    /// clue. Input legality (duplicate givens) is not checked here.
    pub fn from_zero_grid(grid: &[[u8; 9]; 9]) -> (r: Self)
        requires
            forall|i: int, j: int| 0 <= i < 9 && 0 <= j < 9 ==> #[trigger] grid@[i]@[j] <= 9,
        ensures
            r@.len() == 81,
            forall|i: int|
                0 <= i < 81 ==> #[trigger] r@[i] == (if grid@[row_of(i)]@[col_of(i)] == 0 {
                    CellModel::Empty
                } else {
                    CellModel::Fixed(grid@[row_of(i)]@[col_of(i)] as int)
                }),
    {
        let mut sudoku = Sudoku::default();
        let mut row: usize = 0;
        while row < 9
            invariant
                row <= 9,
                sudoku@.len() == 81,
                forall|i: int, j: int| 0 <= i < 9 && 0 <= j < 9 ==> #[trigger] grid@[i]@[j] <= 9,
                forall|i: int|
                    0 <= i < row * 9 ==> #[trigger] sudoku@[i] == (if grid@[row_of(i)]@[col_of(
                        i,
                    )] == 0 {
                        CellModel::Empty
                    } else {
                        CellModel::Fixed(grid@[row_of(i)]@[col_of(i)] as int)
                    }),
                forall|i: int| row * 9 <= i < 81 ==> #[trigger] sudoku@[i] == CellModel::Empty,
            decreases 9 - row,
        {
            let mut col: usize = 0;
            while col < 9
                invariant
                    row < 9,
                    col <= 9,
                    sudoku@.len() == 81,
                    forall|i: int, j: int|
                        0 <= i < 9 && 0 <= j < 9 ==> #[trigger] grid@[i]@[j] <= 9,
                    forall|i: int|
                        0 <= i < row * 9 + col ==> #[trigger] sudoku@[i] == (if grid@[row_of(
                            i,
                        )]@[col_of(i)] == 0 {
                            CellModel::Empty
                        } else {
                            CellModel::Fixed(grid@[row_of(i)]@[col_of(i)] as int)
                        }),
                    forall|i: int|
                        row * 9 + col <= i < 81 ==> #[trigger] sudoku@[i] == CellModel::Empty,
                decreases 9 - col,
            {
                let v = grid[row][col];
                let idx = row * BOARD_LEN + col;
                if v != 0 {
                    sudoku.set_cell(idx, Cell::Fixed(v));
                }
                proof {
                    assert(row_of(idx as int) == row && col_of(idx as int) == col);
                }
                col = col + 1;
            }
            row = row + 1;
        }
        sudoku
    }

    /// Is every cell determined (a given clue or a deduced digit)?
    pub fn is_solved(&self) -> (r: bool)
        ensures
            r == is_solved_spec(self@),
    {
        let mut i: usize = 0;
        while i < 81
            invariant
                i <= 81,
                forall|j: int| 0 <= j < i ==> is_determined(#[trigger] self@[j]),
            decreases 81 - i,
        {
            match self.grid[i] {
                Cell::Fixed(_) => {},
                Cell::Collapsed(_) => {},
                _ => {
                    proof {
                        assert(!is_determined(self@[i as int]));
                    }
                    return false;
                },
            }
            i = i + 1;
        }
        true
    }

    /// Turn every blank cell into a superposition of all nine candidates.
    /// Must run once, after construction and before solving; given clues are
    /// untouched.
    pub fn initialize_superpositions(&mut self)
        requires
            forall|i: int|
                0 <= i < 81 ==> (#[trigger] old(self)@[i] is Empty || old(self)@[i] is Fixed),
        ensures
            final(self)@.len() == 81,
            forall|i: int|
                0 <= i < 81 ==> #[trigger] final(self)@[i] == (if old(self)@[i] is Empty {
                    CellModel::Super(Seq::new(9, |k: int| true))
                } else {
                    old(self)@[i]
                }),
    {
        let mut i: usize = 0;
        while i < 81
            invariant
                i <= 81,
                self@.len() == 81,
                forall|j: int|
                    0 <= j < 81 ==> (#[trigger] old(self)@[j] is Empty || old(self)@[j] is Fixed),
                forall|j: int|
                    0 <= j < i ==> #[trigger] self@[j] == (if old(self)@[j] is Empty {
                        CellModel::Super(Seq::new(9, |k: int| true))
                    } else {
                        old(self)@[j]
                    }),
                forall|j: int| i <= j < 81 ==> #[trigger] self@[j] == old(self)@[j],
            decreases 81 - i,
        {
            let ghost prev = self@;
            match self.grid[i] {
                Cell::Empty => {
                    let fresh = [true; 9];
                    proof {
                        assert(fresh@ =~= Seq::new(9, |k: int| true));
                        assert(prev[i as int] == old(self)@[i as int]);
                    }
                    self.set_cell(i, Cell::Superposition(fresh));
                    proof {
                        assert(self@[i as int] == CellModel::Super(Seq::new(9, |k: int| true)));
                        assert(forall|j: int| 0 <= j < 81 && j != i ==> self@[j] == prev[j]);
                    }
                },
                _ => {
                    proof {
                        assert(self@[i as int] == old(self)@[i as int]);
                    }
                },
            }
            i = i + 1;
        }
    }
}

} // verus!
