//! Propagation: making the candidates of every open area, and settling the
//! areas that have one candidate only.

use crate::area::{
    area_views, combinations, is_combination, lemma_combination_bounds, lemma_sum_range,
    lists_combinations, nested, Area, AreaView,
};
use crate::assign::{
    assign_combination, cell_at, field_note, fill, is_kept, lemma_fill_keeps_digits, names_cell,
    Diagnostic, Filling,
};
use crate::grid::{is_grid, on_board};
use crate::settled::{candidates_cover, lemma_start_is_filled, no_blank};
use crate::board::{GameBoard, SolveError};
use vstd::prelude::*;

verus! {

/// The sum of the cells of `fixed` that the fields name. A blank cell adds
/// nothing, and a field that names no cell is left out.
pub open spec fn fixed_sum(fixed: Seq<Seq<i32>>, fields: Seq<Seq<i32>>) -> int
    decreases fields.len(),
{
    if fields.len() == 0 {
        0
    } else {
        let field = fields.last();
        fixed_sum(fixed, fields.drop_last()) + if names_cell(field) {
            cell_at(fixed, field) as int
        } else {
            0
        }
    }
}

/// How many of the fields name a cell that is blank on `fixed`.
pub open spec fn blank_count(fixed: Seq<Seq<i32>>, fields: Seq<Seq<i32>>) -> nat
    decreases fields.len(),
{
    if fields.len() == 0 {
        0
    } else {
        let field = fields.last();
        blank_count(fixed, fields.drop_last()) + if names_cell(field) && cell_at(fixed, field)
            == 0 {
            1nat
        } else {
            0nat
        }
    }
}

/// The notes on the fields that name no cell, in the order of the fields.
pub open spec fn field_notes(fields: Seq<Seq<i32>>) -> Seq<Diagnostic>
    decreases fields.len(),
{
    if fields.len() == 0 {
        Seq::empty()
    } else if names_cell(fields.last()) {
        field_notes(fields.drop_last())
    } else {
        field_notes(fields.drop_last()).push(field_note(fields.last()))
    }
}

/// The notes on the fields of all the areas, area by area.
pub open spec fn area_notes(areas: Seq<AreaView>) -> Seq<Diagnostic>
    decreases areas.len(),
{
    if areas.len() == 0 {
        Seq::empty()
    } else {
        area_notes(areas.drop_last()) + field_notes(areas.last().fields)
    }
}

/// `after` is the area `before` with its candidates made anew from the
/// puzzle `fixed`: the combinations for as many cells as the area has blank
/// ones, and for the sum that its given digits leave. An area without blank
/// cells has one candidate, which holds no digit, if its given digits reach
/// its sum, and none if they miss it.
pub open spec fn prepared(before: AreaView, after: AreaView, fixed: Seq<Seq<i32>>) -> bool {
    &&& after.fields == before.fields
    &&& after.value == before.value
    &&& lists_combinations(
        after.combinations,
        blank_count(fixed, before.fields),
        before.value - fixed_sum(fixed, before.fields),
    )
}

/// A board and the notes made while it was written to.
pub struct Filled {
    pub grid: Seq<Seq<i32>>,
    pub notes: Seq<Diagnostic>,
}

/// A board to start from, with no notes yet.
pub open spec fn unmarked(grid: Seq<Seq<i32>>) -> Filled {
    Filled { grid, notes: Seq::empty() }
}

/// Whether a pass writes the area's first candidate: always if it is the
/// only one, and otherwise only if the pass is not confined to such areas.
pub open spec fn is_written(area: AreaView, unique_only: bool) -> bool {
    area.combinations.len() == 1 || (!unique_only && area.combinations.len() > 1)
}

/// One pass over the areas, in their order: the first candidate of each area
/// that the pass writes goes into the cells of the area that are blank on the
/// board when their field is reached.
pub open spec fn settle(start: Filled, areas: Seq<AreaView>, unique_only: bool) -> Filled
    decreases areas.len(),
{
    if areas.len() == 0 {
        start
    } else {
        let before = settle(start, areas.drop_last(), unique_only);
        let area = areas.last();
        if is_written(area, unique_only) {
            let done = fill(
                Filling { grid: before.grid, stack: area.combinations[0], notes: before.notes },
                None,
                area.fields,
            );
            Filled { grid: done.grid, notes: done.notes }
        } else {
            before
        }
    }
}

/// The test that keeps the areas that a pass over the unique candidates
/// leaves open: those with no candidate, or with more than one.
pub open spec fn stays_open() -> spec_fn(AreaView) -> bool {
    |area: AreaView| area.combinations.len() != 1
}

/// Every area has no candidate or more than one: nothing is left to settle.
pub open spec fn fully_resolved(areas: Seq<AreaView>) -> bool {
    forall|k: int| 0 <= k < areas.len() ==> (#[trigger] areas[k]).combinations.len() != 1
}

/// The index of the first area without candidates, if there is one
/// ([`lemma_first_is_least`] says so in full).
pub open spec fn first_without_candidates(areas: Seq<AreaView>) -> Option<int>
    decreases areas.len(),
{
    if areas.len() == 0 {
        None
    } else {
        match first_without_candidates(areas.drop_last()) {
            Some(k) => Some(k),
            None => if areas.last().combinations.len() == 0 {
                Some(areas.len() - 1)
            } else {
                None
            },
        }
    }
}

/// For no cells there is the combination without digits if the sum is 0,
/// and none if it is not.
proof fn lemma_no_cells(l: Seq<Seq<i32>>, s: int)
    requires
        s == 0 ==> l.len() == 1 && l[0].len() == 0,
        s != 0 ==> l.len() == 0,
    ensures
        lists_combinations(l, 0, s),
{
    assert forall|c: Seq<i32>| #[trigger] is_combination(c, 0, s) implies l.contains(c) by {
        assert(s == 0);
        assert(c =~= l[0]);
    }
}

/// No digits add up to a sum below 0 or above 45.
proof fn lemma_sum_out_of_reach(n: nat, s: int)
    requires
        s < 0 || s > 45,
    ensures
        lists_combinations(Seq::<Seq<i32>>::empty(), n, s),
{
    assert forall|c: Seq<i32>| #[trigger] is_combination(c, n, s) implies Seq::<
        Seq<i32>,
    >::empty().contains(c) by {
        lemma_combination_bounds(c, n, s);
        lemma_sum_range(n as int);
    }
}

impl GameBoard {
    /// Makes the candidates of every open area from the puzzle as given: for
    /// each area the combinations for its blank cells and for the sum that is
    /// left once its given digits are taken off. For an area without blank
    /// cells nothing is to assign: its one candidate holds no digit, unless
    /// the given digits miss the sum, which leaves it without a candidate.
    ///
    /// A field that names no cell counts neither as blank nor towards the
    /// sum; the notes returned list these fields, area by area.
    pub fn prepare_game(&mut self) -> (notes: Vec<Diagnostic>)
        ensures
            final(self).sudoku == old(self).sudoku,
            final(self).curr_iter == old(self).curr_iter,
            final(self).best_iter == old(self).best_iter,
            final(self).energy_x == old(self).energy_x,
            final(self).energy_y == old(self).energy_y,
            final(self).area@.len() == old(self).area@.len(),
            forall|k: int|
                0 <= k < old(self).area@.len() ==> prepared(
                    (#[trigger] old(self).area@[k])@,
                    final(self).area@[k]@,
                    old(self).sudoku@,
                ),
            notes@ == area_notes(area_views(old(self).area@)),
    {
        let mut notes: Vec<Diagnostic> = Vec::new();
        let ghost before = area_views(self.area@);
        let mut k: usize = 0;
        while k < self.area.len()
            invariant
                self.sudoku == old(self).sudoku,
                self.curr_iter == old(self).curr_iter,
                self.best_iter == old(self).best_iter,
                self.energy_x == old(self).energy_x,
                self.energy_y == old(self).energy_y,
                before == area_views(old(self).area@),
                self.area@.len() == before.len(),
                k <= self.area@.len(),
                forall|j: int|
                    0 <= j < k ==> prepared(before[j], (#[trigger] self.area@[j])@, self.sudoku@),
                forall|j: int| k <= j < before.len() ==> (#[trigger] self.area@[j])@ == before[j],
                notes@ == area_notes(before.take(k as int)),
            decreases self.area@.len() - k,
        {
            let ghost fields = before[k as int].fields;
            let ghost noted = notes@;
            assert(self.area@[k as int]@ == before[k as int]);
            let mut sum: i128 = 0;
            let mut none_count: usize = 0;
            let sel_fields = &self.area[k].fields;
            let mut i: usize = 0;
            while i < sel_fields.len()
                invariant
                    fields == nested(sel_fields@),
                    i <= sel_fields@.len(),
                    sum == fixed_sum(self.sudoku@, fields.take(i as int)),
                    none_count == blank_count(self.sudoku@, fields.take(i as int)),
                    none_count <= i,
                    -0x8000_0000 * i <= sum <= 0x8000_0000 * i,
                    notes@ == noted + field_notes(fields.take(i as int)),
                decreases sel_fields@.len() - i,
            {
                let row = &sel_fields[i];
                proof {
                    assert(fields.take(i + 1).drop_last() =~= fields.take(i as int));
                    assert(fields.take(i + 1).last() == row@);
                }
                if row.len() == 2 {
                    let row_idx = row[0];
                    let col_idx = row[1];
                    if 0 <= row_idx && row_idx < 9 && 0 <= col_idx && col_idx < 9 {
                        let value = self.sudoku.cells[row_idx as usize][col_idx as usize];
                        if value == 0 {
                            none_count += 1;
                        }
                        sum += value as i128;
                    } else {
                        notes.push(Diagnostic::OutOfBounds { row: row_idx, col: col_idx });
                    }
                } else {
                    notes.push(Diagnostic::InvalidFormat);
                }
                i += 1;
            }
            proof {
                assert(fields.take(i as int) =~= fields);
                assert(before.take(k + 1).drop_last() =~= before.take(k as int));
            }
            let target: i128 = self.area[k].value as i128 - sum;
            let found = if none_count == 0 {
                // Nothing to assign: the one way to fill no cells, if the
                // given digits reach the sum, and no way if they miss it.
                let mut fillings: Vec<Vec<i32>> = Vec::new();
                if target == 0 {
                    fillings.push(Vec::new());
                }
                proof {
                    lemma_no_cells(nested(fillings@), target as int);
                }
                fillings
            } else if -0x8000_0000 <= target && target <= 0x7fff_ffff {
                combinations(none_count, target as i32)
            } else {
                proof {
                    lemma_sum_out_of_reach(none_count as nat, target as int);
                }
                let none: Vec<Vec<i32>> = Vec::new();
                assert(nested(none@) =~= Seq::<Seq<i32>>::empty());
                none
            };
            self.area[k].combinations = found;
            k += 1;
        }
        assert(before.take(k as int) =~= before);
        notes
    }

    /// Settles the areas that have exactly one candidate: the candidate goes
    /// into the blank cells of the area on the working grid, used up from its
    /// end, and the area is closed. The areas are handled in their order, and
    /// a cell that an earlier area has filled is no longer blank for a later
    /// one. Areas with no candidate or with several stay open, in their order.
    pub fn resolve_simple(&mut self) -> (notes: Vec<Diagnostic>)
        ensures
            final(self).sudoku == old(self).sudoku,
            final(self).best_iter == old(self).best_iter,
            final(self).energy_x == old(self).energy_x,
            final(self).energy_y == old(self).energy_y,
            final(self).curr_iter@ == settle(
                unmarked(old(self).curr_iter@),
                area_views(old(self).area@),
                true,
            ).grid,
            notes@ == settle(
                unmarked(old(self).curr_iter@),
                area_views(old(self).area@),
                true,
            ).notes,
            area_views(final(self).area@) == area_views(old(self).area@).filter(stays_open()),
            fully_resolved(area_views(final(self).area@)),
            fully_resolved(area_views(old(self).area@)) ==> ({
                &&& final(self).curr_iter@ == old(self).curr_iter@
                &&& area_views(final(self).area@) == area_views(old(self).area@)
                &&& notes@.len() == 0
            }),
            forall|r: int, c: int|
                on_board(r, c) && #[trigger] old(self).curr_iter@[r][c] != 0
                    ==> final(self).curr_iter@[r][c] == old(self).curr_iter@[r][c],
    {
        let mut notes: Vec<Diagnostic> = Vec::new();
        let ghost start = unmarked(self.curr_iter@);
        let ghost before = area_views(self.area@);
        proof {
            if fully_resolved(before) {
                lemma_resolved_stays(start, before);
            }
        }
        let mut k: usize = 0;
        while k < self.area.len()
            invariant
                self.sudoku == old(self).sudoku,
                self.best_iter == old(self).best_iter,
                self.energy_x == old(self).energy_x,
                self.energy_y == old(self).energy_y,
                self.area == old(self).area,
                before == area_views(self.area@),
                k <= self.area@.len(),
                self.curr_iter@ == settle(start, before.take(k as int), true).grid,
                notes@ == settle(start, before.take(k as int), true).notes,
            decreases self.area@.len() - k,
        {
            proof {
                assert(before.take(k + 1).drop_last() =~= before.take(k as int));
                assert(before.take(k + 1).last() == self.area@[k as int]@);
            }
            let sel_area = &self.area[k];
            if sel_area.combinations.len() == 1 {
                assign_combination(
                    &mut self.curr_iter,
                    None,
                    &sel_area.fields,
                    &sel_area.combinations[0],
                    &mut notes,
                );
            }
            k += 1;
        }
        assert(before.take(k as int) =~= before);

        // Only the areas that are still open stay on the board.
        let mut handled: Vec<Area> = Vec::new();
        std::mem::swap(&mut handled, &mut self.area);
        proof {
            reveal(Seq::filter);
            assert(before.take(0) =~= Seq::<AreaView>::empty());
            assert(area_views(self.area@) =~= Seq::<AreaView>::empty());
        }
        for sel_area in it: handled
            invariant
                self.sudoku == old(self).sudoku,
                self.best_iter == old(self).best_iter,
                self.energy_x == old(self).energy_x,
                self.energy_y == old(self).energy_y,
                self.curr_iter@ == settle(start, before, true).grid,
                it.seq() == handled@,
                before == area_views(handled@),
                area_views(self.area@) == before.take(it.index() as int).filter(stays_open()),
        {
            let ghost kept = area_views(self.area@);
            proof {
                reveal(Seq::filter);
                assert(before.take(it.index() + 1).drop_last() =~= before.take(it.index() as int));
                assert(before.take(it.index() + 1).last() == sel_area@);
            }
            if sel_area.combinations.len() != 1 {
                self.area.push(sel_area);
                assert(area_views(self.area@) =~= kept.push(sel_area@));
            }
        }
        proof {
            lemma_settle_keeps_digits(start, before, true);
            assert(start.grid == old(self).curr_iter@);
            assert(before.take(before.len() as int) =~= before);
            let open = area_views(self.area@);
            assert forall|k: int|
                0 <= k < open.len() implies (#[trigger] open[k]).combinations.len() != 1 by {
                before.lemma_filter_pred(stays_open(), k);
            }
        }
        notes
    }

    /// Fills the working grid before the search starts: for every open area,
    /// in their order, the first candidate goes into the cells of the area
    /// that are still blank on the working grid, used up from its end. Where
    /// each first candidate has a digit for every blank cell of its area,
    /// no cell of an open area is blank afterwards; the grid may hold repeats.
    ///
    /// An open area without candidates cannot be filled: the puzzle has no
    /// solution as given. Then nothing is written, and the error names the
    /// first such area.
    pub fn set_init(&mut self) -> (result: Result<Vec<Diagnostic>, SolveError>)
        ensures
            final(self).sudoku == old(self).sudoku,
            final(self).area == old(self).area,
            final(self).best_iter == old(self).best_iter,
            final(self).energy_x == old(self).energy_x,
            final(self).energy_y == old(self).energy_y,
            (match first_without_candidates(area_views(old(self).area@)) {
                Some(k) => result == Err::<Vec<Diagnostic>, SolveError>(
                    SolveError::NoCandidates { area: k as usize },
                ) && final(self).curr_iter == old(self).curr_iter,
                None => result is Ok && final(self).curr_iter@ == settle(
                    unmarked(old(self).curr_iter@),
                    area_views(old(self).area@),
                    false,
                ).grid && result->Ok_0@ == settle(
                    unmarked(old(self).curr_iter@),
                    area_views(old(self).area@),
                    false,
                ).notes,
            }),
            forall|r: int, c: int|
                on_board(r, c) && #[trigger] old(self).curr_iter@[r][c] != 0
                    ==> final(self).curr_iter@[r][c] == old(self).curr_iter@[r][c],
            result is Ok && candidates_cover(old(self).curr_iter@, area_views(old(self).area@))
                ==> forall|k: int|
                0 <= k < old(self).area@.len() ==> no_blank(
                    final(self).curr_iter@,
                    (#[trigger] old(self).area@[k])@.fields,
                ),
    {
        let ghost start = unmarked(self.curr_iter@);
        let ghost before = area_views(self.area@);
        let mut k: usize = 0;
        while k < self.area.len()
            invariant
                *self == *old(self),
                before == area_views(self.area@),
                k <= self.area@.len(),
                first_without_candidates(before.take(k as int)) is None,
            decreases self.area@.len() - k,
        {
            proof {
                assert(before.take(k + 1).drop_last() =~= before.take(k as int));
                assert(before.take(k + 1).last() == self.area@[k as int]@);
            }
            if self.area[k].combinations.len() == 0 {
                proof {
                    lemma_first_without_candidates(before, k as int);
                }
                return Err(SolveError::NoCandidates { area: k });
            }
            k += 1;
        }
        assert(before.take(k as int) =~= before);

        let mut notes: Vec<Diagnostic> = Vec::new();
        let mut k: usize = 0;
        while k < self.area.len()
            invariant
                self.sudoku == old(self).sudoku,
                self.best_iter == old(self).best_iter,
                self.energy_x == old(self).energy_x,
                self.energy_y == old(self).energy_y,
                self.area == old(self).area,
                before == area_views(self.area@),
                first_without_candidates(before) is None,
                k <= self.area@.len(),
                self.curr_iter@ == settle(start, before.take(k as int), false).grid,
                notes@ == settle(start, before.take(k as int), false).notes,
            decreases self.area@.len() - k,
        {
            proof {
                assert(before.take(k + 1).drop_last() =~= before.take(k as int));
                assert(before.take(k + 1).last() == self.area@[k as int]@);
                lemma_all_have_candidates(before, k as int);
            }
            let sel_area = &self.area[k];
            assign_combination(
                &mut self.curr_iter,
                None,
                &sel_area.fields,
                &sel_area.combinations[0],
                &mut notes,
            );
            k += 1;
        }
        proof {
            assert(before.take(k as int) =~= before);
            lemma_settle_keeps_digits(start, before, false);
            assert(start.grid == old(self).curr_iter@);
            if candidates_cover(start.grid, before) {
                lemma_start_is_filled(start, before);
                assert forall|k: int| 0 <= k < old(self).area@.len() implies no_blank(
                    self.curr_iter@,
                    (#[trigger] old(self).area@[k])@.fields,
                ) by {
                    assert(before[k] == old(self).area@[k]@);
                }
            }
        }
        Ok(notes)
    }
}

/// A pass writes to blank cells only: a cell that holds a digit before the
/// pass is the same after it. The board keeps its shape.
pub proof fn lemma_settle_keeps_digits(start: Filled, areas: Seq<AreaView>, unique_only: bool)
    requires
        is_grid(start.grid),
    ensures
        is_grid(settle(start, areas, unique_only).grid),
        forall|r: int, c: int|
            on_board(r, c) && #[trigger] start.grid[r][c] != 0 ==> settle(
                start,
                areas,
                unique_only,
            ).grid[r][c] == start.grid[r][c],
    decreases areas.len(),
{
    if areas.len() > 0 {
        lemma_settle_keeps_digits(start, areas.drop_last(), unique_only);
        let before = settle(start, areas.drop_last(), unique_only);
        let area = areas.last();
        if is_written(area, unique_only) {
            let from = Filling {
                grid: before.grid,
                stack: area.combinations[0],
                notes: before.notes,
            };
            lemma_fill_keeps_digits(from, None, area.fields);
            assert forall|r: int, c: int|
                on_board(r, c) && #[trigger] start.grid[r][c] != 0 implies settle(
                start,
                areas,
                unique_only,
            ).grid[r][c] == start.grid[r][c] by {
                assert(before.grid[r][c] == start.grid[r][c]);
                assert(is_kept(from.grid, None::<Seq<Seq<i32>>>, r, c));
            }
        }
    }
}

/// Where nothing is left to settle, a pass over the unique candidates writes
/// nothing and closes no area.
pub proof fn lemma_resolved_stays(start: Filled, areas: Seq<AreaView>)
    requires
        fully_resolved(areas),
    ensures
        settle(start, areas, true) == start,
        areas.filter(stays_open()) == areas,
    decreases areas.len(),
{
    reveal(Seq::filter);
    if areas.len() > 0 {
        let head = areas.drop_last();
        assert forall|k: int| 0 <= k < head.len() implies (#[trigger] head[k]).combinations.len()
            != 1 by {
            assert(head[k] == areas[k]);
        }
        lemma_resolved_stays(start, head);
        assert(areas.last() == areas[areas.len() - 1]);
        assert(head.push(areas.last()) =~= areas);
    }
}

/// Settling is idempotent: after one pass over the unique candidates a
/// second pass changes nothing. It writes to no cell, makes no note and
/// closes no area.
pub proof fn lemma_resolution_idempotent(grid: Seq<Seq<i32>>, areas: Seq<AreaView>)
    ensures
        ({
            let once = settle(unmarked(grid), areas, true);
            let open = areas.filter(stays_open());
            &&& fully_resolved(open)
            &&& settle(unmarked(once.grid), open, true) == unmarked(once.grid)
            &&& open.filter(stays_open()) == open
        }),
{
    let open = areas.filter(stays_open());
    assert forall|k: int| 0 <= k < open.len() implies (#[trigger] open[k]).combinations.len()
        != 1 by {
        areas.lemma_filter_pred(stays_open(), k);
    }
    lemma_resolved_stays(unmarked(settle(unmarked(grid), areas, true).grid), open);
}

/// If the areas before the `k`-th all have candidates and the `k`-th has
/// none, then the `k`-th is the first without candidates.
proof fn lemma_first_without_candidates(areas: Seq<AreaView>, k: int)
    requires
        0 <= k < areas.len(),
        first_without_candidates(areas.take(k)) is None,
        areas[k].combinations.len() == 0,
    ensures
        first_without_candidates(areas) == Some(k),
    decreases areas.len(),
{
    if k == areas.len() - 1 {
        assert(areas.drop_last() =~= areas.take(k));
    } else {
        assert(areas.drop_last().take(k) =~= areas.take(k));
        lemma_first_without_candidates(areas.drop_last(), k);
    }
}

/// What [`first_without_candidates`] finds: the least index of an area
/// without candidates, and nothing exactly when every area has a candidate.
pub proof fn lemma_first_is_least(areas: Seq<AreaView>)
    ensures
        (match first_without_candidates(areas) {
            Some(k) => {
                &&& 0 <= k < areas.len()
                &&& areas[k].combinations.len() == 0
                &&& forall|j: int| 0 <= j < k ==> (#[trigger] areas[j]).combinations.len() > 0
            },
            None => forall|j: int|
                0 <= j < areas.len() ==> (#[trigger] areas[j]).combinations.len() > 0,
        }),
    decreases areas.len(),
{
    if areas.len() > 0 {
        let head = areas.drop_last();
        lemma_first_is_least(head);
        match first_without_candidates(head) {
            Some(k) => {
                assert(head[k] == areas[k]);
                assert forall|j: int| 0 <= j < k implies (#[trigger] areas[j]).combinations.len()
                    > 0 by {
                    assert(head[j] == areas[j]);
                }
            },
            None => {
                assert forall|j: int| 0 <= j < head.len() implies (
                #[trigger] areas[j]).combinations.len() > 0 by {
                    assert(head[j] == areas[j]);
                }
            },
        }
    }
}

/// Where no area is without candidates, each area has one at least.
pub proof fn lemma_all_have_candidates(areas: Seq<AreaView>, k: int)
    requires
        0 <= k < areas.len(),
        first_without_candidates(areas) is None,
    ensures
        areas[k].combinations.len() > 0,
{
    lemma_first_is_least(areas);
}

} // verus!
