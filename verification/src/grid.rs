//! The 9×9 board of cells and its mathematical model.

use vstd::prelude::*;

verus! {

/// A 9×9 board. A cell holds a digit, or `0` while it is blank.
#[derive(Clone, Copy, Debug, PartialEq, Eq)]
pub struct Grid {
    pub cells: [[i32; 9]; 9],
}

impl View for Grid {
    type V = Seq<Seq<i32>>;

    /// The board as nine rows of nine cells.
    open spec fn view(&self) -> Seq<Seq<i32>> {
        Seq::new(9, |r: int| Seq::new(9, |c: int| self.cells[r][c]))
    }
}

/// `(r, c)` names a cell of the board.
pub open spec fn on_board(r: int, c: int) -> bool {
    0 <= r < 9 && 0 <= c < 9
}

/// `g` has the shape of a board: nine rows of nine cells.
pub open spec fn is_grid(g: Seq<Seq<i32>>) -> bool {
    g.len() == 9 && forall|r: int| 0 <= r < 9 ==> (#[trigger] g[r]).len() == 9
}

/// The board `g` with the cell `(r, c)` set to `v`.
pub open spec fn with_cell(g: Seq<Seq<i32>>, r: int, c: int, v: i32) -> Seq<Seq<i32>> {
    g.update(r, g[r].update(c, v))
}

/// What a table of rows holds at `(r, c)`: the entry, or `0` where the table has none.
pub open spec fn table_cell(rows: Seq<Vec<i32>>, r: int, c: int) -> i32 {
    if 0 <= r < rows.len() && 0 <= c < rows[r]@.len() {
        rows[r]@[c]
    } else {
        0
    }
}

/// The board that a table of rows describes.
pub open spec fn table_grid(rows: Seq<Vec<i32>>) -> Seq<Seq<i32>> {
    Seq::new(9, |r: int| Seq::new(9, |c: int| table_cell(rows, r, c)))
}

impl Grid {
    /// The board with every cell blank.
    pub fn blank() -> (g: Grid)
        ensures
            forall|r: int, c: int| on_board(r, c) ==> g@[r][c] == 0,
    {
        Grid { cells: [[0i32; 9]; 9] }
    }

    /// Writes `value` into the cell `(row, col)`.
    pub(crate) fn put(&mut self, row: usize, col: usize, value: i32)
        requires
            row < 9,
            col < 9,
        ensures
            final(self)@ == with_cell(old(self)@, row as int, col as int, value),
    {
        self.cells[row][col] = value;
        proof {
            assert(self.cells[row as int]@ == old(self).cells[row as int]@.update(
                col as int,
                value,
            ));
            assert forall|i: int| 0 <= i < 9 && i != row implies self.cells[i] == old(
                self,
            ).cells[i] by {}
            assert(self@ =~~= with_cell(old(self)@, row as int, col as int, value));
        }
    }

    /// The board as nine vectors of nine cells, row by row.
    pub fn rows(&self) -> (out: Vec<Vec<i32>>)
        ensures
            out@.len() == 9,
            forall|r: int| 0 <= r < 9 ==> (#[trigger] out@[r])@ == self@[r],
    {
        let mut out: Vec<Vec<i32>> = Vec::new();
        let mut r: usize = 0;
        while r < 9
            invariant
                r <= 9,
                out@.len() == r,
                forall|i: int| 0 <= i < r ==> (#[trigger] out@[i])@ == self@[i],
            decreases 9 - r,
        {
            let mut row: Vec<i32> = Vec::new();
            let mut c: usize = 0;
            while c < 9
                invariant
                    r < 9,
                    c <= 9,
                    row@.len() == c,
                    forall|j: int| 0 <= j < c ==> row@[j] == self@[r as int][j],
                decreases 9 - c,
            {
                row.push(self.cells[r][c]);
                c += 1;
            }
            assert(row@ =~= self@[r as int]);
            out.push(row);
            r += 1;
        }
        out
    }
}

/// Copies a table of rows onto a board: the cell `(r, c)` takes the table's
/// entry at `(r, c)`. Where the table is smaller than the board the cell stays
/// blank, and entries beyond the ninth row or column are left out.
pub fn copy_sudoku(sudoku: &Vec<Vec<i32>>) -> (grid: Grid)
    ensures
        grid@ == table_grid(sudoku@),
{
    let mut grid = Grid::blank();
    let mut r: usize = 0;
    while r < 9 && r < sudoku.len()
        invariant
            r <= 9,
            forall|i: int, j: int|
                on_board(i, j) ==> grid@[i][j] == if i < r {
                    table_cell(sudoku@, i, j)
                } else {
                    0
                },
        decreases 9 - r,
    {
        let mut c: usize = 0;
        while c < 9 && c < sudoku[r].len()
            invariant
                r < 9,
                r < sudoku@.len(),
                c <= 9,
                forall|i: int, j: int|
                    on_board(i, j) ==> grid@[i][j] == if i < r || (i == r && j < c) {
                        table_cell(sudoku@, i, j)
                    } else {
                        0
                    },
            decreases 9 - c,
        {
            grid.put(r, c, sudoku[r][c]);
            c += 1;
        }
        r += 1;
    }
    proof {
        let table = table_grid(sudoku@);
        assert forall|i: int| 0 <= i < 9 implies grid@[i] == table[i] by {
            assert forall|j: int| 0 <= j < 9 implies grid@[i][j] == table[i][j] by {
                assert(on_board(i, j));
            }
            assert(grid@[i] =~= table[i]);
        }
        assert(grid@ =~= table);
    }
    grid
}

} // verus!
