//! The consistency filter: dropping the candidates of an area that would
//! bring a repeat into a row, a column or a box of a reference board.

use crate::area::{area_views, nested, Area, AreaView};
use crate::assign::{assign_combination, fill, Diagnostic, Filling};
use crate::board::GameBoard;
use crate::energy::{count_duplicates, energy};
use crate::grid::Grid;
use vstd::prelude::*;

verus! {

/// The reference board with one candidate written into the blank cells of
/// the area, and the notes made on the way.
pub open spec fn trial(
    reference: Seq<Seq<i32>>,
    fields: Seq<Seq<i32>>,
    combination: Seq<i32>,
    notes: Seq<Diagnostic>,
) -> Filling {
    fill(Filling { grid: reference, stack: combination, notes }, None, fields)
}

/// The test that a candidate passes if the reference board with the
/// candidate written into it has energy zero.
pub open spec fn fits(reference: Seq<Seq<i32>>, fields: Seq<Seq<i32>>) -> spec_fn(
    Seq<i32>,
) -> bool {
    |combination: Seq<i32>|
        energy(trial(reference, fields, combination, Seq::empty()).grid) == 0
}

/// The notes made while the candidates are tried one after the other.
pub open spec fn trial_notes(
    reference: Seq<Seq<i32>>,
    fields: Seq<Seq<i32>>,
    candidates: Seq<Seq<i32>>,
    notes: Seq<Diagnostic>,
) -> Seq<Diagnostic>
    decreases candidates.len(),
{
    if candidates.len() == 0 {
        notes
    } else {
        trial(
            reference,
            fields,
            candidates.last(),
            trial_notes(reference, fields, candidates.drop_last(), notes),
        ).notes
    }
}

/// `after` is the area `before` with the candidates dropped that do not fit
/// the reference board.
pub open spec fn filtered(before: AreaView, after: AreaView, reference: Seq<Seq<i32>>) -> bool {
    &&& after.fields == before.fields
    &&& after.value == before.value
    &&& after.combinations == before.combinations.filter(fits(reference, before.fields))
}

/// The notes made while the candidates of all the areas are tried, area by area.
pub open spec fn filter_notes(reference: Seq<Seq<i32>>, areas: Seq<AreaView>) -> Seq<Diagnostic>
    decreases areas.len(),
{
    if areas.len() == 0 {
        Seq::empty()
    } else {
        trial_notes(
            reference,
            areas.last().fields,
            areas.last().combinations,
            filter_notes(reference, areas.drop_last()),
        )
    }
}

/// The board that a trial ends with does not depend on the notes it starts with.
proof fn lemma_trial_grid(
    start: Filling,
    other: Filling,
    mask: Option<Seq<Seq<i32>>>,
    fields: Seq<Seq<i32>>,
)
    requires
        start.grid == other.grid,
        start.stack == other.stack,
    ensures
        fill(start, mask, fields).grid == fill(other, mask, fields).grid,
        fill(start, mask, fields).stack == fill(other, mask, fields).stack,
    decreases fields.len(),
{
    if fields.len() > 0 {
        lemma_trial_grid(start, other, mask, fields.drop_last());
    }
}

/// A test that every entry passes keeps the whole sequence.
proof fn lemma_filter_all_pass(s: Seq<Seq<i32>>, pred: spec_fn(Seq<i32>) -> bool)
    requires
        forall|i: int| 0 <= i < s.len() ==> pred(#[trigger] s[i]),
    ensures
        s.filter(pred) == s,
    decreases s.len(),
{
    reveal(Seq::filter);
    if s.len() > 0 {
        let head = s.drop_last();
        assert forall|i: int| 0 <= i < head.len() implies pred(#[trigger] head[i]) by {
            assert(head[i] == s[i]);
        }
        lemma_filter_all_pass(head, pred);
        assert(pred(s[s.len() - 1]));
        assert(head.push(s.last()) =~= s);
    }
}

/// Taking out an entry that fails the test, when all between it and the
/// place `b` pass, leaves the part from that entry on filtered as far as the
/// part from `b` on was.
proof fn lemma_remove_failing(
    all: Seq<Seq<i32>>,
    pred: spec_fn(Seq<i32>) -> bool,
    id: int,
    b: int,
)
    requires
        0 <= id < b <= all.len(),
        !pred(all[id]),
        forall|i: int| id < i < b ==> pred(#[trigger] all[i]),
    ensures
        (all.take(b) + all.skip(b).filter(pred)).remove(id) == all.take(id) + all.skip(id).filter(
            pred,
        ),
{
    let one = all.subrange(id, id + 1);
    let mid = all.subrange(id + 1, b);
    let tail = all.skip(b);
    assert(one.filter(pred) =~= Seq::<Seq<i32>>::empty()) by {
        reveal(Seq::filter);
        assert(one.last() == all[id]);
        assert(one.drop_last() =~= Seq::<Seq<i32>>::empty());
        assert(one.drop_last().filter(pred) =~= Seq::<Seq<i32>>::empty());
    }
    assert forall|i: int| 0 <= i < mid.len() implies pred(#[trigger] mid[i]) by {
        assert(mid[i] == all[id + 1 + i]);
    }
    lemma_filter_all_pass(mid, pred);
    assert(all.skip(id) =~= one + (mid + tail));
    Seq::filter_distributes_over_add(one, mid + tail, pred);
    Seq::filter_distributes_over_add(mid, tail, pred);
    assert((all.take(b) + tail.filter(pred)).remove(id) =~= all.take(id) + (mid + tail.filter(
        pred,
    )));
}

/// Drops the candidates of `sel_area` that do not fit the reference board
/// `sudoku`. Each candidate is tried on a fresh copy of the board: it is
/// written into the cells of the area that are blank there, used up from its
/// end, and it stays if the board then has energy zero. The candidates that
/// stay keep their order.
///
/// The test looks at the whole board, not at the area alone, so how much it
/// takes away depends on the reference board that is handed in.
pub fn check_conflict_with_init(sel_area: &mut Area, sudoku: Grid) -> (notes: Vec<Diagnostic>)
    ensures
        filtered(old(sel_area)@, final(sel_area)@, sudoku@),
        notes@ == trial_notes(
            sudoku@,
            old(sel_area)@.fields,
            old(sel_area)@.combinations,
            Seq::empty(),
        ),
{
    let ghost fields = sel_area@.fields;
    let ghost all = sel_area@.combinations;
    let ghost pred = fits(sudoku@, fields);
    let mut notes: Vec<Diagnostic> = Vec::new();
    let mut id_to_remove: Vec<usize> = Vec::new();
    let mut i: usize = 0;
    while i < sel_area.combinations.len()
        invariant
            *sel_area == *old(sel_area),
            fields == sel_area@.fields,
            all == sel_area@.combinations,
            pred == fits(sudoku@, fields),
            i <= all.len(),
            forall|a: int, b: int|
                0 <= a < b < id_to_remove@.len() ==> id_to_remove@[a] < id_to_remove@[b],
            forall|a: int| 0 <= a < id_to_remove@.len() ==> id_to_remove@[a] < i,
            forall|k: usize| k < i ==> (!pred(all[k as int]) <==> id_to_remove@.contains(k)),
            notes@ == trial_notes(sudoku@, fields, all.take(i as int), Seq::empty()),
        decreases all.len() - i,
    {
        let ghost noted = notes@;
        let ghost marked = id_to_remove@;
        let mut sudoku_check = sudoku;
        assign_combination(
            &mut sudoku_check,
            None,
            &sel_area.fields,
            &sel_area.combinations[i],
            &mut notes,
        );
        proof {
            assert(all.take(i + 1).drop_last() =~= all.take(i as int));
            assert(all.take(i + 1).last() == all[i as int]);
            lemma_trial_grid(
                Filling { grid: sudoku@, stack: all[i as int], notes: noted },
                Filling { grid: sudoku@, stack: all[i as int], notes: Seq::empty() },
                None,
                fields,
            );
        }
        let dup_count = count_duplicates(&sudoku_check);
        if dup_count != 0 {
            id_to_remove.push(i);
            proof {
                assert(id_to_remove@[marked.len() as int] == i);
                assert forall|k: usize| k < i + 1 implies (!pred(all[k as int])
                    <==> id_to_remove@.contains(k)) by {
                    if marked.contains(k) {
                        let a = choose|a: int| 0 <= a < marked.len() && marked[a] == k;
                        assert(id_to_remove@[a] == k);
                    }
                    if id_to_remove@.contains(k) && k < i {
                        let a = choose|a: int|
                            0 <= a < id_to_remove@.len() && id_to_remove@[a] == k;
                        assert(marked[a] == k);
                    }
                }
            }
        }
        i += 1;
    }
    assert(all.take(i as int) =~= all);

    // From the highest index down, so that the indices still to come stay right.
    let ghost mut bound: int = all.len() as int;
    proof {
        assert(all.take(bound) =~= all);
        assert(all.skip(bound) =~= Seq::<Seq<i32>>::empty());
        assert(all.skip(bound).filter(pred) =~= Seq::<Seq<i32>>::empty()) by {
            reveal(Seq::filter);
        }
    }
    while id_to_remove.len() > 0
        invariant
            sel_area@.fields == fields,
            sel_area.value == old(sel_area).value,
            0 <= bound <= all.len(),
            all.len() <= usize::MAX,
            forall|a: int, b: int|
                0 <= a < b < id_to_remove@.len() ==> id_to_remove@[a] < id_to_remove@[b],
            forall|a: int| 0 <= a < id_to_remove@.len() ==> id_to_remove@[a] < bound,
            forall|k: usize| k < bound ==> (!pred(all[k as int]) <==> id_to_remove@.contains(k)),
            sel_area@.combinations == all.take(bound) + all.skip(bound).filter(pred),
        decreases id_to_remove@.len(),
    {
        let ghost marked = id_to_remove@;
        let ghost held = sel_area.combinations@;
        if let Some(remove_id) = id_to_remove.pop() {
            proof {
                assert(marked[marked.len() - 1] == remove_id);
                assert(marked.contains(remove_id));
                assert forall|k: int| remove_id < k < bound implies pred(#[trigger] all[k]) by {
                    let at = k as usize;
                    if marked.contains(at) {
                        let a = choose|a: int| 0 <= a < marked.len() && marked[a] == at;
                        if a < marked.len() - 1 {
                            assert(marked[a] < marked[marked.len() - 1]);
                        }
                    }
                    assert(!pred(all[at as int]) <==> marked.contains(at));
                }
                lemma_remove_failing(all, pred, remove_id as int, bound);
                assert(nested(held).len() == held.len());
            }
            sel_area.combinations.remove(remove_id);
            proof {
                assert(nested(sel_area.combinations@) =~= nested(held).remove(remove_id as int));
                assert forall|k: usize| k < remove_id implies (!pred(all[k as int])
                    <==> id_to_remove@.contains(k)) by {
                    if marked.contains(k) {
                        let a = choose|a: int| 0 <= a < marked.len() && marked[a] == k;
                        assert(id_to_remove@[a] == k);
                    }
                    if id_to_remove@.contains(k) {
                        let a = choose|a: int|
                            0 <= a < id_to_remove@.len() && id_to_remove@[a] == k;
                        assert(marked[a] == k);
                    }
                }
                assert forall|a: int| 0 <= a < id_to_remove@.len() implies id_to_remove@[a]
                    < remove_id by {
                    assert(marked[a] < marked[marked.len() - 1]);
                }
                bound = remove_id as int;
            }
        }
    }
    proof {
        assert forall|k: int| 0 <= k < all.take(bound).len() implies pred(
            #[trigger] all.take(bound)[k],
        ) by {
            let at = k as usize;
            assert(!id_to_remove@.contains(at));
            assert(!pred(all[at as int]) <==> id_to_remove@.contains(at));
            assert(all.take(bound)[k] == all[k]);
        }
        lemma_filter_all_pass(all.take(bound), pred);
        Seq::filter_distributes_over_add(all.take(bound), all.skip(bound), pred);
        assert(all.take(bound) + all.skip(bound) =~= all);
    }
    notes
}

impl GameBoard {
    /// Runs the consistency filter over every open area, with the puzzle as
    /// given for the reference board: a candidate stays only if the given
    /// digits and the candidate together repeat no digit in any row, column
    /// or box. This step is optional; the search works without it.
    pub fn reduce_combinations(&mut self) -> (notes: Vec<Diagnostic>)
        ensures
            final(self).sudoku == old(self).sudoku,
            final(self).curr_iter == old(self).curr_iter,
            final(self).best_iter == old(self).best_iter,
            final(self).energy_x == old(self).energy_x,
            final(self).energy_y == old(self).energy_y,
            final(self).area@.len() == old(self).area@.len(),
            forall|k: int|
                0 <= k < old(self).area@.len() ==> filtered(
                    (#[trigger] old(self).area@[k])@,
                    final(self).area@[k]@,
                    old(self).sudoku@,
                ),
            notes@ == filter_notes(old(self).sudoku@, area_views(old(self).area@)),
    {
        let mut notes: Vec<Diagnostic> = Vec::new();
        let ghost before = area_views(self.area@);
        let mut k: usize = 0;
        while k < self.area.len()
            invariant
                self.sudoku == old(self).sudoku,
                self.curr_iter == old(self).curr_iter,
                self.best_iter == old(self).best_iter,
                self.energy_x == old(self).energy_x,
                self.energy_y == old(self).energy_y,
                before == area_views(old(self).area@),
                self.area@.len() == before.len(),
                k <= self.area@.len(),
                forall|j: int|
                    0 <= j < k ==> filtered(before[j], (#[trigger] self.area@[j])@, self.sudoku@),
                forall|j: int| k <= j < before.len() ==> (#[trigger] self.area@[j])@ == before[j],
                notes@ == filter_notes(self.sudoku@, before.take(k as int)),
            decreases self.area@.len() - k,
        {
            let ghost noted = notes@;
            assert(self.area@[k as int]@ == before[k as int]);
            let reference = self.sudoku;
            let mut more = check_conflict_with_init(&mut self.area[k], reference);
            proof {
                assert(before.take(k + 1).drop_last() =~= before.take(k as int));
                assert(before.take(k + 1).last() == before[k as int]);
                lemma_trial_notes_after(
                    self.sudoku@,
                    before[k as int].fields,
                    before[k as int].combinations,
                    noted,
                );
            }
            notes.append(&mut more);
            k += 1;
        }
        assert(before.take(k as int) =~= before);
        notes
    }
}

/// The notes of a trial go behind the notes that it starts with.
proof fn lemma_trial_after(start: Filling, mask: Option<Seq<Seq<i32>>>, fields: Seq<Seq<i32>>)
    ensures
        fill(start, mask, fields).notes == start.notes + fill(
            Filling { grid: start.grid, stack: start.stack, notes: Seq::empty() },
            mask,
            fields,
        ).notes,
    decreases fields.len(),
{
    let bare = Filling { grid: start.grid, stack: start.stack, notes: Seq::empty() };
    if fields.len() == 0 {
        assert(start.notes + bare.notes =~= start.notes);
    } else {
        lemma_trial_after(start, mask, fields.drop_last());
        lemma_trial_grid(start, bare, mask, fields.drop_last());
        let a = fill(start, mask, fields.drop_last());
        let b = fill(bare, mask, fields.drop_last());
        assert(fill(start, mask, fields).notes =~= start.notes + fill(bare, mask, fields).notes);
    }
}

/// The notes of a run of trials go behind the notes that it starts with.
proof fn lemma_trial_notes_after(
    reference: Seq<Seq<i32>>,
    fields: Seq<Seq<i32>>,
    candidates: Seq<Seq<i32>>,
    notes: Seq<Diagnostic>,
)
    ensures
        trial_notes(reference, fields, candidates, notes) == notes + trial_notes(
            reference,
            fields,
            candidates,
            Seq::empty(),
        ),
    decreases candidates.len(),
{
    if candidates.len() == 0 {
        assert(notes + Seq::<Diagnostic>::empty() =~= notes);
    } else {
        let head = candidates.drop_last();
        lemma_trial_notes_after(reference, fields, head, notes);
        let with = trial_notes(reference, fields, head, notes);
        let without = trial_notes(reference, fields, head, Seq::empty());
        lemma_trial_after(
            Filling { grid: reference, stack: candidates.last(), notes: with },
            None,
            fields,
        );
        lemma_trial_after(
            Filling { grid: reference, stack: candidates.last(), notes: without },
            None,
            fields,
        );
        let bare = fill(
            Filling { grid: reference, stack: candidates.last(), notes: Seq::empty() },
            None,
            fields,
        ).notes;
        assert((notes + without) + bare =~= notes + (without + bare));
    }
}

} // verus!
