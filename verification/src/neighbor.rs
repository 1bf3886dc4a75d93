//! Neighbours of the working grid: the grid with one open area filled anew
//! from one of its candidates.

use crate::area::{area_views, AreaView};
use crate::assign::{assign_combination, fill, is_kept, Diagnostic, Filling};
use crate::board::{GameBoard, SolveError};
use crate::grid::{on_board, Grid};
use crate::propagate::first_without_candidates;
use rand::Rng;
use vstd::prelude::*;

verus! {

/// A neighbour of the working grid, with the notes made while it was written.
pub type Proposal = (Grid, Vec<Diagnostic>);

/// The working grid with the candidate `comb_id` of `area` written into the
/// cells of the area that are blank in the puzzle as given, and the notes
/// made on the way.
pub open spec fn neighbor(
    working: Seq<Seq<i32>>,
    fixed: Seq<Seq<i32>>,
    area: AreaView,
    comb_id: int,
) -> Filling {
    fill(
        Filling { grid: working, stack: area.combinations[comb_id], notes: Seq::empty() },
        Some(fixed),
        area.fields,
    )
}

/// `grid` and `notes` are what the candidate `comb_id` of the area `area_id` gives.
pub open spec fn proposes(
    board: &GameBoard,
    area_id: int,
    comb_id: int,
    grid: Seq<Seq<i32>>,
    notes: Seq<Diagnostic>,
) -> bool {
    &&& 0 <= area_id < board.area@.len()
    &&& 0 <= comb_id < board.area@[area_id].combinations@.len()
    &&& grid == neighbor(board.curr_iter@, board.sudoku@, board.area@[area_id]@, comb_id).grid
    &&& notes == neighbor(board.curr_iter@, board.sudoku@, board.area@[area_id]@, comb_id).notes
}

/// Draws a number below `bound` from the random number generator that
/// `rand::thread_rng` hands out, with `rand::Rng::gen_range` on the range
/// from 0 up to `bound`, `bound` itself left out. The contract takes from
/// `gen_range` that it returns a value of the range it is given; it panics on
/// an empty range, which `bound > 0` rules out. Which value comes is left
/// open. (`thread_rng` panics where the system gives it nothing to seed the
/// generator with; no argument decides that.)
#[verifier::external_body]
fn random_below(bound: usize) -> (drawn: usize)
    requires
        bound > 0,
    ensures
        drawn < bound,
{
    rand::thread_rng().gen_range(0..bound)
}

impl GameBoard {
    /// Makes the neighbour of the working grid that the candidate `comb_id`
    /// of the open area `area_id` gives: a copy of the working grid in which
    /// the cells of the area that are blank in the puzzle as given hold the
    /// digits of the candidate, used up from its end. Cells that the search
    /// has filled before are written over; the digits of the puzzle are not.
    /// The board itself stays as it is.
    ///
    /// Returns `None` if there is no such area or no such candidate.
    pub fn propose(&self, area_id: usize, comb_id: usize) -> (result: Option<Proposal>)
        ensures
            (match result {
                Some((grid, notes)) => proposes(
                    self,
                    area_id as int,
                    comb_id as int,
                    grid@,
                    notes@,
                ),
                None => !(area_id < self.area@.len() && comb_id
                    < self.area@[area_id as int].combinations@.len()),
            }),
            forall|r: int, c: int|
                result is Some && on_board(r, c) && #[trigger] self.sudoku@[r][c] != 0
                    ==> result->Some_0.0@[r][c] == self.curr_iter@[r][c],
    {
        if area_id >= self.area.len() {
            return None;
        }
        let sel_area = &self.area[area_id];
        if comb_id >= sel_area.combinations.len() {
            return None;
        }
        let mut sudoku_neighbor: Grid = self.curr_iter;
        let mut notes: Vec<Diagnostic> = Vec::new();
        assign_combination(
            &mut sudoku_neighbor,
            Some(&self.sudoku),
            &sel_area.fields,
            &sel_area.combinations[comb_id],
            &mut notes,
        );
        assert forall|r: int, c: int|
            on_board(r, c) && #[trigger] self.sudoku@[r][c] != 0 implies sudoku_neighbor@[r][c]
            == self.curr_iter@[r][c] by {
            assert(is_kept(self.curr_iter@, Some(self.sudoku@), r, c));
        }
        Some((sudoku_neighbor, notes))
    }

    /// Makes a neighbour of the working grid at random: one open area is
    /// drawn, each with the same chance, then one of its candidates, each
    /// with the same chance, and the neighbour is the one that
    /// [`GameBoard::propose`] makes of the two.
    ///
    /// With no open area there is nothing to draw from, and an area that is
    /// drawn may have no candidate: both are errors. Where every open area
    /// has a candidate, a neighbour is returned.
    pub fn swap(&self) -> (result: Result<Proposal, SolveError>)
        ensures
            result matches Ok(made) ==> exists|area_id: int, comb_id: int| #[trigger]
                proposes(self, area_id, comb_id, made.0@, made.1@),
            result matches Err(SolveError::NoActiveArea) ==> self.area@.len() == 0,
            result matches Err(SolveError::NoCandidates { area }) ==> area < self.area@.len()
                && self.area@[area as int].combinations@.len() == 0,
            self.area@.len() == 0 ==> result == Err::<Proposal, SolveError>(
                SolveError::NoActiveArea,
            ),
            self.area@.len() > 0 && first_without_candidates(area_views(self.area@)) is None
                ==> result is Ok,
            forall|r: int, c: int|
                result is Ok && on_board(r, c) && #[trigger] self.sudoku@[r][c] != 0
                    ==> result->Ok_0.0@[r][c] == self.curr_iter@[r][c],
    {
        if self.area.len() == 0 {
            return Err(SolveError::NoActiveArea);
        }
        let random_area = random_below(self.area.len());
        let candidates = self.area[random_area].combinations.len();
        if candidates == 0 {
            proof {
                if first_without_candidates(area_views(self.area@)) is None {
                    crate::propagate::lemma_all_have_candidates(
                        area_views(self.area@),
                        random_area as int,
                    );
                }
            }
            return Err(SolveError::NoCandidates { area: random_area });
        }
        let random_comb = random_below(candidates);
        assert(random_comb < self.area@[random_area as int].combinations@.len());
        let proposal = self.propose(random_area, random_comb);
        match proposal {
            Some(made) => {
                let found: Result<Proposal, SolveError> = Ok(made);
                assert(proposes(
                    self,
                    random_area as int,
                    random_comb as int,
                    found->Ok_0.0@,
                    found->Ok_0.1@,
                ));
                found
            },
            None => {
                assert(false);
                Err(SolveError::NoActiveArea)
            },
        }
    }
}

} // verus!
