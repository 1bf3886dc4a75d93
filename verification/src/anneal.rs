//! The decisions of the simulated-annealing search. The caller runs the
//! loop: it asks for a neighbour, draws whether a step uphill is taken, hands
//! both in, and cools down when it is told to.

use crate::area::area_views;
use crate::assign::Diagnostic;
use crate::board::{GameBoard, SolveError};
use crate::energy::{count_duplicates, energy};
use crate::grid::Grid;
use crate::propagate::{first_without_candidates, settle, unmarked};
use crate::settled::{candidates_cover, no_blank};
use vstd::prelude::*;

verus! {

/// How many proposals are looked at before the temperature goes down.
pub const PROPOSALS_PER_LEVEL: u32 = 100;

/// The count that a run of the search keeps: how many proposals it has seen.
#[derive(Clone, Copy, Debug, PartialEq, Eq)]
pub struct Annealer {
    pub iteration: u32,
}

/// What the caller does after a proposal has been looked at.
#[derive(Clone, Copy, Debug, PartialEq, Eq)]
pub enum AnnealAction {
    /// Go on at the same temperature with another proposal.
    Propose,
    /// The level is complete: lower the temperature, and stop the search if
    /// it has reached its floor.
    Cool,
}

/// The part of a board that the search changes.
#[verifier::ext_equal]
pub struct SearchView {
    /// The grid that the search stands on.
    pub working: Seq<Seq<i32>>,
    /// The best grid that the search has stood on.
    pub best: Seq<Seq<i32>>,
    /// The trace: the number of each proposal.
    pub trace_x: Seq<int>,
    /// The trace: the energy of each proposal.
    pub trace_y: Seq<int>,
    /// How many proposals the run has seen.
    pub iteration: int,
}

/// A step is taken if it leads downhill, or if the draw allows it.
pub open spec fn accepts(delta: int, uphill_draw: bool) -> bool {
    delta < 0 || uphill_draw
}

/// The search after it has looked at one proposal. An accepted neighbour
/// becomes the working grid, and the best grid too if its energy is below the
/// best so far. The proposal goes on the trace whether it is accepted or not.
pub open spec fn considered(
    s: SearchView,
    neighbor: Seq<Seq<i32>>,
    uphill_draw: bool,
) -> SearchView {
    let new_energy = energy(neighbor) as int;
    let accepted = accepts(new_energy - energy(s.working), uphill_draw);
    SearchView {
        working: if accepted {
            neighbor
        } else {
            s.working
        },
        best: if accepted && new_energy < energy(s.best) {
            neighbor
        } else {
            s.best
        },
        trace_x: s.trace_x.push(s.iteration),
        trace_y: s.trace_y.push(new_energy),
        iteration: s.iteration + 1,
    }
}

/// The search after it has looked at the proposals one after the other. Each
/// is a neighbour with the draw for a step uphill.
pub open spec fn considered_all(s: SearchView, proposals: Seq<(Seq<Seq<i32>>, bool)>) -> SearchView
    decreases proposals.len(),
{
    if proposals.len() == 0 {
        s
    } else {
        considered(
            considered_all(s, proposals.drop_last()),
            proposals.last().0,
            proposals.last().1,
        )
    }
}

/// The least of `start` and the energies.
pub open spec fn lowest(start: int, energies: Seq<int>) -> int
    decreases energies.len(),
{
    if energies.len() == 0 {
        start
    } else {
        let before = lowest(start, energies.drop_last());
        if energies.last() < before {
            energies.last()
        } else {
            before
        }
    }
}

/// The numbers of a trace as the contracts see them.
pub open spec fn as_ints(values: Seq<i32>) -> Seq<int> {
    Seq::new(values.len(), |k: int| values[k] as int)
}

impl GameBoard {
    /// The part of the board that the search changes, with the count of the run.
    pub open spec fn search(&self, run: Annealer) -> SearchView {
        SearchView {
            working: self.curr_iter@,
            best: self.best_iter@,
            trace_x: as_ints(self.energy_x@),
            trace_y: as_ints(self.energy_y@),
            iteration: run.iteration as int,
        }
    }

    /// Starts a run of the search: the working grid is filled as
    /// [`GameBoard::set_init`] fills it, the best grid is a copy of it, and
    /// the count of proposals starts at zero. The trace is kept as it is.
    /// As after `set_init`, no cell of an open area is blank if each first
    /// candidate has a digit for every blank cell of its area.
    ///
    /// Fails as `set_init` does, and then leaves the board as it is.
    pub fn begin_annealing(&mut self) -> (result: Result<(Annealer, Vec<Diagnostic>), SolveError>)
        ensures
            final(self).sudoku == old(self).sudoku,
            final(self).area == old(self).area,
            final(self).energy_x == old(self).energy_x,
            final(self).energy_y == old(self).energy_y,
            (match first_without_candidates(area_views(old(self).area@)) {
                Some(k) => result == Err::<(Annealer, Vec<Diagnostic>), SolveError>(
                    SolveError::NoCandidates { area: k as usize },
                ) && final(self).curr_iter == old(self).curr_iter
                    && final(self).best_iter == old(self).best_iter,
                None => result is Ok && final(self).curr_iter@ == settle(
                    unmarked(old(self).curr_iter@),
                    area_views(old(self).area@),
                    false,
                ).grid && final(self).best_iter == final(self).curr_iter
                    && result->Ok_0.0.iteration == 0 && result->Ok_0.1@ == settle(
                    unmarked(old(self).curr_iter@),
                    area_views(old(self).area@),
                    false,
                ).notes,
            }),
            result is Ok && candidates_cover(old(self).curr_iter@, area_views(old(self).area@))
                ==> forall|k: int|
                0 <= k < old(self).area@.len() ==> no_blank(
                    final(self).curr_iter@,
                    (#[trigger] old(self).area@[k])@.fields,
                ),
    {
        match self.set_init() {
            Ok(notes) => {
                self.best_iter = self.curr_iter;
                Ok((Annealer { iteration: 0 }, notes))
            },
            Err(error) => Err(error),
        }
    }

    /// By how much the energy of `neighbor` lies above the energy of the
    /// working grid. The chance of a step uphill is made of this.
    pub fn energy_delta(&self, neighbor: &Grid) -> (delta: i32)
        ensures
            delta == energy(neighbor@) - energy(self.curr_iter@),
    {
        count_duplicates(neighbor) as i32 - count_duplicates(&self.curr_iter) as i32
    }

    /// Looks at one proposal. The neighbour is accepted if its energy is
    /// below that of the working grid, or else if `uphill_draw` says so: the
    /// caller draws it with the chance that the temperature gives a step
    /// uphill. An accepted neighbour becomes the working grid, and the best
    /// grid as well if its energy is below that of the best grid. The number
    /// of the proposal and its energy go on the trace in either case.
    ///
    /// The answer is `Cool` after every hundredth proposal of the run.
    pub fn consider(
        &mut self,
        run: &mut Annealer,
        neighbor: Grid,
        uphill_draw: bool,
    ) -> (action: AnnealAction)
        requires
            old(run).iteration < i32::MAX,
        ensures
            final(self).sudoku == old(self).sudoku,
            final(self).area == old(self).area,
            final(self).search(*final(run)) == considered(
                old(self).search(*old(run)),
                neighbor@,
                uphill_draw,
            ),
            energy(final(self).best_iter@) <= energy(old(self).best_iter@),
            action == (if final(run).iteration % PROPOSALS_PER_LEVEL == 0 {
                AnnealAction::Cool
            } else {
                AnnealAction::Propose
            }),
    {
        let ghost before = self.search(*run);
        let new_energy: i32 = count_duplicates(&neighbor) as i32;
        let delta_energy: i32 = new_energy - count_duplicates(&self.curr_iter) as i32;
        if delta_energy < 0 || uphill_draw {
            self.curr_iter = neighbor;
            if new_energy < count_duplicates(&self.best_iter) as i32 {
                self.best_iter = neighbor;
            }
        }
        self.energy_x.push(run.iteration as i32);
        self.energy_y.push(new_energy);
        run.iteration += 1;
        proof {
            let after = self.search(*run);
            let wanted = considered(before, neighbor@, uphill_draw);
            assert(after.trace_x =~= wanted.trace_x);
            assert(after.trace_y =~= wanted.trace_y);
        }
        if run.iteration % PROPOSALS_PER_LEVEL == 0 {
            AnnealAction::Cool
        } else {
            AnnealAction::Propose
        }
    }
}

/// The best grid never gets worse: whatever proposals the search looks at,
/// the energy of its best grid afterwards is at most what it was before.
pub proof fn lemma_best_never_worse(s: SearchView, proposals: Seq<(Seq<Seq<i32>>, bool)>)
    ensures
        energy(considered_all(s, proposals).best) <= energy(s.best),
    decreases proposals.len(),
{
    if proposals.len() > 0 {
        lemma_best_never_worse(s, proposals.drop_last());
    }
}

/// The best grid follows the trace. If the search starts with a best grid
/// that is no worse than its working grid, then after any proposals the
/// energy of the best grid is the least of its energy at the start and the
/// energies that the run has put on the trace, and the best grid is still no
/// worse than the working grid.
pub proof fn lemma_best_is_lowest_of_trace(s: SearchView, proposals: Seq<(Seq<Seq<i32>>, bool)>)
    requires
        energy(s.best) <= energy(s.working),
    ensures
        ({
            let end = considered_all(s, proposals);
            &&& end.trace_y.len() == s.trace_y.len() + proposals.len()
            &&& end.trace_y.take(s.trace_y.len() as int) == s.trace_y
            &&& energy(end.best) == lowest(
                energy(s.best) as int,
                end.trace_y.skip(s.trace_y.len() as int),
            )
            &&& energy(end.best) <= energy(end.working)
        }),
    decreases proposals.len(),
{
    let end = considered_all(s, proposals);
    let from = s.trace_y.len() as int;
    if proposals.len() == 0 {
        assert(end.trace_y.skip(from) =~= Seq::<int>::empty());
        assert(end.trace_y.take(from) =~= s.trace_y);
    } else {
        let head = proposals.drop_last();
        lemma_best_is_lowest_of_trace(s, head);
        let mid = considered_all(s, head);
        assert(end.trace_y.skip(from).drop_last() =~= mid.trace_y.skip(from));
        assert(end.trace_y.take(from) =~= mid.trace_y.take(from));
        assert(end.trace_y.skip(from).last() == energy(proposals.last().0));
    }
}

} // verus!
