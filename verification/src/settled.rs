//! What writing candidates into a board achieves: an area that takes a
//! combination made for it reaches its sum, and a board on which every open
//! area has taken a candidate has no blank cell left in any of them.

use crate::area::{digit_sum, is_combination, AreaView};
use crate::assign::{
    cell_at, fill, is_kept, lemma_fill_keeps_digits, names_cell, place, Diagnostic, Filling,
};
use crate::grid::{is_grid, on_board};
use crate::propagate::{blank_count, fixed_sum, is_written, settle, Filled};
use vstd::prelude::*;

verus! {

/// No two fields name the same cell.
pub open spec fn distinct_cells(fields: Seq<Seq<i32>>) -> bool {
    forall|i: int, j: int|
        0 <= i < j < fields.len() && names_cell(#[trigger] fields[i]) && names_cell(
            #[trigger] fields[j],
        ) ==> fields[i][0] != fields[j][0] || fields[i][1] != fields[j][1]
}

/// None of the fields names the cell `(r, c)`.
pub open spec fn unnamed(fields: Seq<Seq<i32>>, r: int, c: int) -> bool {
    forall|i: int|
        0 <= i < fields.len() && names_cell(#[trigger] fields[i]) ==> fields[i][0] != r
            || fields[i][1] != c
}

/// Every cell that the fields name holds a digit.
pub open spec fn no_blank(grid: Seq<Seq<i32>>, fields: Seq<Seq<i32>>) -> bool {
    forall|i: int|
        0 <= i < fields.len() && names_cell(#[trigger] fields[i]) ==> cell_at(grid, fields[i]) != 0
}

/// No entry is 0.
pub open spec fn no_zero(c: Seq<i32>) -> bool {
    forall|i: int| 0 <= i < c.len() ==> #[trigger] c[i] != 0
}

/// Two boards that agree on the cells that the fields name give them the
/// same sum and the same number of blank cells.
proof fn lemma_same_cells(g: Seq<Seq<i32>>, h: Seq<Seq<i32>>, fields: Seq<Seq<i32>>)
    requires
        forall|i: int|
            0 <= i < fields.len() && names_cell(#[trigger] fields[i]) ==> cell_at(g, fields[i])
                == cell_at(h, fields[i]),
    ensures
        fixed_sum(g, fields) == fixed_sum(h, fields),
        blank_count(g, fields) == blank_count(h, fields),
    decreases fields.len(),
{
    if fields.len() > 0 {
        let head = fields.drop_last();
        assert forall|i: int|
            0 <= i < head.len() && names_cell(#[trigger] head[i]) implies cell_at(g, head[i])
            == cell_at(h, head[i]) by {
            assert(head[i] == fields[i]);
        }
        lemma_same_cells(g, h, head);
        assert(fields.last() == fields[fields.len() - 1]);
    }
}

/// The first fields name no more blank cells than all of them.
proof fn lemma_blank_count_grows(g: Seq<Seq<i32>>, fields: Seq<Seq<i32>>, k: int)
    requires
        0 <= k <= fields.len(),
    ensures
        blank_count(g, fields.take(k)) <= blank_count(g, fields),
    decreases fields.len() - k,
{
    if k < fields.len() {
        lemma_blank_count_grows(g, fields, k + 1);
        assert(fields.take(k + 1).drop_last() =~= fields.take(k));
    } else {
        assert(fields.take(k) =~= fields);
    }
}

/// A board with fewer blank cells leaves fewer to count.
proof fn lemma_blank_count_shrinks(g: Seq<Seq<i32>>, h: Seq<Seq<i32>>, fields: Seq<Seq<i32>>)
    requires
        forall|r: int, c: int| on_board(r, c) && #[trigger] g[r][c] != 0 ==> h[r][c] != 0,
    ensures
        blank_count(h, fields) <= blank_count(g, fields),
    decreases fields.len(),
{
    if fields.len() > 0 {
        lemma_blank_count_shrinks(g, h, fields.drop_last());
        let field = fields.last();
        if names_cell(field) {
            let r = field[0] as int;
            let c = field[1] as int;
            if g[r][c] != 0 {
                assert(h[r][c] != 0);
            }
        }
    }
}

/// How far a combination has got after the first `k` fields of an area whose
/// fields name different cells, when it has a digit for every blank cell.
proof fn lemma_fill_progress(
    grid: Seq<Seq<i32>>,
    fields: Seq<Seq<i32>>,
    c: Seq<i32>,
    notes: Seq<Diagnostic>,
    k: int,
)
    requires
        is_grid(grid),
        distinct_cells(fields),
        no_zero(c),
        c.len() == blank_count(grid, fields),
        0 <= k <= fields.len(),
    ensures
        ({
            let head = fields.take(k);
            let done = fill(Filling { grid, stack: c, notes }, None, head);
            &&& is_grid(done.grid)
            &&& done.stack == c.take(c.len() - blank_count(grid, head))
            &&& blank_count(grid, head) <= c.len()
            &&& fixed_sum(done.grid, head) == fixed_sum(grid, head) + digit_sum(c) - digit_sum(
                done.stack,
            )
            &&& blank_count(done.grid, head) == 0
            &&& forall|r: int, col: int|
                on_board(r, col) && unnamed(head, r, col) ==> done.grid[r][col] == grid[r][col]
        }),
    decreases k,
{
    let start = Filling { grid, stack: c, notes };
    let head = fields.take(k);
    let done = fill(start, None, head);
    lemma_blank_count_grows(grid, fields, k);
    if k == 0 {
        assert(c.take(c.len() as int) =~= c);
    } else {
        let before_fields = fields.take(k - 1);
        assert(head.drop_last() =~= before_fields);
        assert(head.last() == fields[k - 1]);
        lemma_fill_progress(grid, fields, c, notes, k - 1);
        let before = fill(start, None, before_fields);
        let field = fields[k - 1];
        assert(done == place(before, field, before.grid));
        if names_cell(field) {
            let r = field[0] as int;
            let col = field[1] as int;
            assert(unnamed(before_fields, r, col)) by {
                assert forall|i: int|
                    0 <= i < before_fields.len() && names_cell(
                        #[trigger] before_fields[i],
                    ) implies before_fields[i][0] != r || before_fields[i][1] != col by {
                    assert(before_fields[i] == fields[i]);
                    assert(names_cell(fields[i]) && names_cell(fields[k - 1]));
                }
            }
            assert(before.grid[r][col] == grid[r][col]);
            // The cells that the earlier fields name are as they were before this step.
            assert forall|i: int|
                0 <= i < before_fields.len() && names_cell(
                    #[trigger] before_fields[i],
                ) implies cell_at(done.grid, before_fields[i])
                == cell_at(before.grid, before_fields[i]) by {
                assert(before_fields[i][0] != r || before_fields[i][1] != col);
            }
            lemma_same_cells(done.grid, before.grid, before_fields);
            if grid[r][col] == 0 {
                assert(before.stack.len() > 0);
                let digit = before.stack.last();
                assert(digit == c[before.stack.len() - 1]);
                assert(digit != 0);
                assert(done.stack =~= c.take(c.len() - blank_count(grid, head)));
                assert(done.grid[r][col] == digit);
            } else {
                assert(done == before);
            }
            assert forall|r2: int, c2: int|
                on_board(r2, c2) && unnamed(head, r2, c2) implies done.grid[r2][c2]
                == grid[r2][c2] by {
                assert(head[k - 1] == field);
                assert(r2 != r || c2 != col);
                assert forall|i: int|
                    0 <= i < before_fields.len() && names_cell(
                        #[trigger] before_fields[i],
                    ) implies before_fields[i][0] != r2 || before_fields[i][1] != c2 by {
                    assert(before_fields[i] == head[i]);
                }
                assert(unnamed(before_fields, r2, c2));
            }
        } else {
            assert(done.grid == before.grid);
            assert(done.stack == before.stack);
            assert forall|r2: int, c2: int|
                on_board(r2, c2) && unnamed(head, r2, c2) implies done.grid[r2][c2]
                == grid[r2][c2] by {
                assert forall|i: int|
                    0 <= i < before_fields.len() && names_cell(
                        #[trigger] before_fields[i],
                    ) implies before_fields[i][0] != r2 || before_fields[i][1] != c2 by {
                    assert(before_fields[i] == head[i]);
                }
                assert(unnamed(before_fields, r2, c2));
            }
        }
    }
}

/// An area that takes a combination made for it reaches its sum. If the
/// fields of the area name different cells, and `c` is a combination for as
/// many cells as are blank among them and for the sum that is left of
/// `value` once the digits on the board are taken off, then after `c` is
/// written every cell of the area holds a digit, the digits of the area add
/// up to `value`, and no digit of `c` is left over.
pub proof fn lemma_area_reaches_its_sum(
    grid: Seq<Seq<i32>>,
    fields: Seq<Seq<i32>>,
    c: Seq<i32>,
    value: int,
)
    requires
        is_grid(grid),
        distinct_cells(fields),
        is_combination(c, blank_count(grid, fields), value - fixed_sum(grid, fields)),
    ensures
        ({
            let done = fill(Filling { grid, stack: c, notes: Seq::empty() }, None, fields);
            &&& fixed_sum(done.grid, fields) == value
            &&& blank_count(done.grid, fields) == 0
            &&& done.stack.len() == 0
        }),
{
    assert(no_zero(c)) by {
        assert forall|i: int| 0 <= i < c.len() implies #[trigger] c[i] != 0 by {
            assert(1 <= c[i] <= 9);
        }
    }
    lemma_fill_progress(grid, fields, c, Seq::empty(), fields.len() as int);
    assert(fields.take(fields.len() as int) =~= fields);
}

/// How far a combination has got after the first `k` fields, when it has a
/// digit for every blank cell at least.
proof fn lemma_cover_progress(
    grid: Seq<Seq<i32>>,
    fields: Seq<Seq<i32>>,
    c: Seq<i32>,
    notes: Seq<Diagnostic>,
    k: int,
)
    requires
        is_grid(grid),
        no_zero(c),
        c.len() >= blank_count(grid, fields),
        0 <= k <= fields.len(),
    ensures
        ({
            let head = fields.take(k);
            let done = fill(Filling { grid, stack: c, notes }, None, head);
            &&& is_grid(done.grid)
            &&& done.stack == c.take(done.stack.len() as int)
            &&& done.stack.len() <= c.len()
            &&& done.stack.len() >= c.len() - blank_count(grid, head)
            &&& no_blank(done.grid, head)
        }),
    decreases k,
{
    let start = Filling { grid, stack: c, notes };
    let head = fields.take(k);
    let done = fill(start, None, head);
    lemma_blank_count_grows(grid, fields, k);
    if k == 0 {
        assert(c.take(c.len() as int) =~= c);
    } else {
        let before_fields = fields.take(k - 1);
        assert(head.drop_last() =~= before_fields);
        assert(head.last() == fields[k - 1]);
        lemma_cover_progress(grid, fields, c, notes, k - 1);
        lemma_fill_keeps_digits(start, None, before_fields);
        let before = fill(start, None, before_fields);
        let field = fields[k - 1];
        assert(done == place(before, field, before.grid));
        if names_cell(field) {
            let r = field[0] as int;
            let col = field[1] as int;
            if before.grid[r][col] == 0 {
                if grid[r][col] != 0 {
                    assert(is_kept(start.grid, None::<Seq<Seq<i32>>>, r, col));
                    assert(before.grid[r][col] == start.grid[r][col]);
                }
                assert(grid[r][col] == 0);
                assert(blank_count(grid, head) == blank_count(grid, before_fields) + 1);
                assert(before.stack.len() > 0);
                let digit = before.stack.last();
                assert(digit == c[before.stack.len() - 1]);
                assert(done.stack =~= c.take(done.stack.len() as int));
            }
        }
        assert forall|i: int|
            0 <= i < head.len() && names_cell(#[trigger] head[i]) implies cell_at(
            done.grid,
            head[i],
        ) != 0 by {
            if i < k - 1 {
                assert(before_fields[i] == head[i]);
                assert(cell_at(before.grid, head[i]) != 0);
            }
        }
    }
}

/// A combination with a digit for every blank cell leaves none blank. If
/// `c` holds no 0 and has as many digits at least as the fields name blank
/// cells, then after `c` is written every cell that the fields name holds a
/// digit.
pub proof fn lemma_fill_leaves_no_blank(
    grid: Seq<Seq<i32>>,
    fields: Seq<Seq<i32>>,
    c: Seq<i32>,
    notes: Seq<Diagnostic>,
)
    requires
        is_grid(grid),
        no_zero(c),
        c.len() >= blank_count(grid, fields),
    ensures
        no_blank(fill(Filling { grid, stack: c, notes }, None, fields).grid, fields),
{
    lemma_cover_progress(grid, fields, c, notes, fields.len() as int);
    assert(fields.take(fields.len() as int) =~= fields);
}

/// The first candidate of every area has a digit for each cell of the area
/// that is blank on `grid`, and none of its digits is 0.
pub open spec fn candidates_cover(grid: Seq<Seq<i32>>, areas: Seq<AreaView>) -> bool {
    forall|k: int|
        0 <= k < areas.len() ==> {
            &&& (#[trigger] areas[k]).combinations.len() > 0
            &&& no_zero(areas[k].combinations[0])
            &&& areas[k].combinations[0].len() >= blank_count(grid, areas[k].fields)
        }
}

/// The search starts from a board without blank cells in the open areas. If
/// the first candidate of every open area covers the blank cells of the
/// area, then after the first candidates are written, area by area, every
/// cell of every open area holds a digit.
pub proof fn lemma_start_is_filled(start: Filled, areas: Seq<AreaView>)
    requires
        is_grid(start.grid),
        candidates_cover(start.grid, areas),
    ensures
        is_grid(settle(start, areas, false).grid),
        forall|k: int|
            0 <= k < areas.len() ==> no_blank(
                settle(start, areas, false).grid,
                (#[trigger] areas[k]).fields,
            ),
    decreases areas.len(),
{
    if areas.len() > 0 {
        let head = areas.drop_last();
        let area = areas.last();
        assert(area == areas[areas.len() - 1]);
        assert(candidates_cover(start.grid, head)) by {
            assert forall|k: int| 0 <= k < head.len() implies {
                &&& (#[trigger] head[k]).combinations.len() > 0
                &&& no_zero(head[k].combinations[0])
                &&& head[k].combinations[0].len() >= blank_count(start.grid, head[k].fields)
            } by {
                assert(head[k] == areas[k]);
            }
        }
        lemma_start_is_filled(start, head);
        crate::propagate::lemma_settle_keeps_digits(start, head, false);
        let before = settle(start, head, false);
        let after = settle(start, areas, false);
        assert(is_written(area, false));
        let from = Filling { grid: before.grid, stack: area.combinations[0], notes: before.notes };
        assert(after.grid == fill(from, None, area.fields).grid);
        lemma_blank_count_shrinks(start.grid, before.grid, area.fields);
        lemma_fill_leaves_no_blank(before.grid, area.fields, area.combinations[0], before.notes);
        lemma_fill_keeps_digits(from, None, area.fields);
        assert forall|k: int| 0 <= k < areas.len() implies no_blank(
            after.grid,
            (#[trigger] areas[k]).fields,
        ) by {
            if k < head.len() {
                assert(head[k] == areas[k]);
                let fields = areas[k].fields;
                assert(no_blank(before.grid, fields));
                assert forall|i: int|
                    0 <= i < fields.len() && names_cell(#[trigger] fields[i]) implies cell_at(
                    after.grid,
                    fields[i],
                ) != 0 by {
                    let r = fields[i][0] as int;
                    let col = fields[i][1] as int;
                    assert(is_kept(from.grid, None::<Seq<Seq<i32>>>, r, col));
                }
            }
        }
    }
}

} // verus!
