//! Writing a combination into the blank cells of an area.

use crate::area::nested;
use crate::grid::{is_grid, on_board, with_cell, Grid};
use vstd::prelude::*;

verus! {

/// A note on something that an operation had to pass over. None of them
/// stops the operation: the field or the cell is left out and the rest goes on.
#[derive(Clone, Copy, Debug, PartialEq, Eq)]
pub enum Diagnostic {
    /// A field that is not a `[row, column]` pair.
    InvalidFormat,
    /// A field that names no cell of the board.
    OutOfBounds { row: i32, col: i32 },
    /// A blank cell for which the combination had no digit left. The cell
    /// stays blank: the combination was shorter than the area has blank cells.
    Exhausted,
}

/// How far a combination has been written: the board, the digits that are
/// left (the next one to use is the last), and the notes made so far.
pub struct Filling {
    pub grid: Seq<Seq<i32>>,
    pub stack: Seq<i32>,
    pub notes: Seq<Diagnostic>,
}

/// The field is a `[row, column]` pair that names a cell of the board.
pub open spec fn names_cell(field: Seq<i32>) -> bool {
    field.len() == 2 && on_board(field[0] as int, field[1] as int)
}

/// The cell of `grid` that the field names.
pub open spec fn cell_at(grid: Seq<Seq<i32>>, field: Seq<i32>) -> i32 {
    grid[field[0] as int][field[1] as int]
}

/// What is noted of a field that names no cell.
pub open spec fn field_note(field: Seq<i32>) -> Diagnostic {
    if field.len() != 2 {
        Diagnostic::InvalidFormat
    } else {
        Diagnostic::OutOfBounds { row: field[0], col: field[1] }
    }
}

/// Handles one field. A field that names no cell is noted and passed over.
/// A cell that is not blank on `mask` is left as it is. A blank one takes the
/// last digit that is left; if none is left, that is noted and the cell stays
/// blank.
pub open spec fn place(f: Filling, field: Seq<i32>, mask: Seq<Seq<i32>>) -> Filling {
    if !names_cell(field) {
        Filling { grid: f.grid, stack: f.stack, notes: f.notes.push(field_note(field)) }
    } else if cell_at(mask, field) != 0 {
        f
    } else if f.stack.len() == 0 {
        Filling { grid: f.grid, stack: f.stack, notes: f.notes.push(Diagnostic::Exhausted) }
    } else {
        Filling {
            grid: with_cell(f.grid, field[0] as int, field[1] as int, f.stack.last()),
            stack: f.stack.drop_last(),
            notes: f.notes,
        }
    }
}

/// Handles the fields one after the other, in their order. With a mask, a
/// cell counts as blank if it is blank on the mask; without one, if it is
/// blank on the board as it stands when its field is reached.
pub open spec fn fill(start: Filling, mask: Option<Seq<Seq<i32>>>, fields: Seq<Seq<i32>>) -> Filling
    decreases fields.len(),
{
    if fields.len() == 0 {
        start
    } else {
        let before = fill(start, mask, fields.drop_last());
        place(
            before,
            fields.last(),
            match mask {
                Some(m) => m,
                None => before.grid,
            },
        )
    }
}

/// The cell `(r, c)` is not open to writing: it holds a digit on the mask,
/// or, without a mask, on the board itself.
pub open spec fn is_kept(
    grid: Seq<Seq<i32>>,
    mask: Option<Seq<Seq<i32>>>,
    r: int,
    c: int,
) -> bool {
    match mask {
        Some(m) => m[r][c] != 0,
        None => grid[r][c] != 0,
    }
}

/// Filling writes to blank cells only: a cell that holds a digit on the mask
/// or, without a mask, on the board at the start, is the same afterwards.
/// The board keeps its shape.
pub proof fn lemma_fill_keeps_digits(
    start: Filling,
    mask: Option<Seq<Seq<i32>>>,
    fields: Seq<Seq<i32>>,
)
    requires
        is_grid(start.grid),
    ensures
        is_grid(fill(start, mask, fields).grid),
        forall|r: int, c: int|
            on_board(r, c) && #[trigger] is_kept(start.grid, mask, r, c) ==> fill(
                start,
                mask,
                fields,
            ).grid[r][c] == start.grid[r][c],
    decreases fields.len(),
{
    if fields.len() > 0 {
        lemma_fill_keeps_digits(start, mask, fields.drop_last());
        let before = fill(start, mask, fields.drop_last());
        let after = fill(start, mask, fields);
        let field = fields.last();
        assert forall|r: int, c: int|
            on_board(r, c) && #[trigger] is_kept(start.grid, mask, r, c) implies after.grid[r][c]
            == start.grid[r][c] by {
            assert(before.grid[r][c] == start.grid[r][c]);
        }
    }
}

/// The mask as the contracts see it.
pub open spec fn mask_view(mask: Option<&Grid>) -> Option<Seq<Seq<i32>>> {
    match mask {
        Some(m) => Some(m@),
        None => None,
    }
}

/// Writes `combination` into the blank cells that `fields` names on `grid`,
/// in the order of the fields. The combination is used up from its end: the
/// first blank cell takes its last digit, the next one the digit before, and
/// so on. With a mask, a cell counts as blank if it is blank on the mask;
/// without one, if it is blank on `grid` itself when its field is reached.
///
/// Fields that name no cell are passed over, and a blank cell for which no
/// digit is left stays blank; both are added to `notes`.
pub fn assign_combination(
    grid: &mut Grid,
    mask: Option<&Grid>,
    fields: &Vec<Vec<i32>>,
    combination: &Vec<i32>,
    notes: &mut Vec<Diagnostic>,
)
    ensures
        ({
            let done = fill(
                (Filling { grid: old(grid)@, stack: combination@, notes: old(notes)@ }),
                mask_view(mask),
                nested(fields@),
            );
            &&& final(grid)@ == done.grid
            &&& final(notes)@ == done.notes
        }),
        forall|r: int, c: int|
            on_board(r, c) && #[trigger] is_kept(old(grid)@, mask_view(mask), r, c)
                ==> final(grid)@[r][c] == old(grid)@[r][c],
{
    let ghost start = Filling { grid: old(grid)@, stack: combination@, notes: old(notes)@ };
    let ghost all = nested(fields@);
    let mut left: usize = combination.len();
    let mut idx: usize = 0;
    while idx < fields.len()
        invariant
            idx <= fields@.len(),
            all == nested(fields@),
            left <= combination@.len(),
            ({
                let done = fill(start, mask_view(mask), all.take(idx as int));
                &&& grid@ == done.grid
                &&& notes@ == done.notes
                &&& combination@.take(left as int) == done.stack
            }),
        decreases fields@.len() - idx,
    {
        let row = &fields[idx];
        proof {
            assert(all.take(idx + 1).drop_last() =~= all.take(idx as int));
            assert(all.take(idx + 1).last() == row@);
        }
        if row.len() == 2 {
            let r = row[0];
            let c = row[1];
            if 0 <= r && r < 9 && 0 <= c && c < 9 {
                let value = match mask {
                    Some(m) => m.cells[r as usize][c as usize],
                    None => grid.cells[r as usize][c as usize],
                };
                if value == 0 {
                    if left > 0 {
                        left -= 1;
                        grid.put(r as usize, c as usize, combination[left]);
                        assert(combination@.take(left as int) =~= combination@.take(
                            left + 1,
                        ).drop_last());
                    } else {
                        notes.push(Diagnostic::Exhausted);
                    }
                }
            } else {
                notes.push(Diagnostic::OutOfBounds { row: r, col: c });
            }
        } else {
            notes.push(Diagnostic::InvalidFormat);
        }
        idx += 1;
    }
    proof {
        assert(all.take(idx as int) =~= all);
        lemma_fill_keeps_digits(start, mask_view(mask), all);
        assert(start.grid == old(grid)@);
    }
}

} // verus!
