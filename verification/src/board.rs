//! The board of a game: the puzzle as given, the areas that are still open,
//! and the grids that the search works on.

use crate::area::{area_views, nested, Area, AreaView};
use crate::game_config::{AreaConfig, GameBoardConfig, SudokuRowConfig};
use crate::grid::{on_board, Grid};
use vstd::prelude::*;

verus! {

/// The board of a game.
#[derive(Clone, Debug)]
pub struct GameBoard {
    /// The puzzle as given. It is never written to.
    pub sudoku: Grid,
    /// The areas that are still open.
    pub area: Vec<Area>,
    /// The grid that the search works on.
    pub curr_iter: Grid,
    /// The best grid that the search has seen.
    pub best_iter: Grid,
    /// The trace of the search: the number of each proposal.
    pub energy_x: Vec<i32>,
    /// The trace of the search: the energy of each proposal.
    pub energy_y: Vec<i32>,
}

/// Why an operation of the search could not be carried out.
#[derive(Clone, Copy, Debug, PartialEq, Eq)]
pub enum SolveError {
    /// No area is open, so there is nothing to choose from.
    NoActiveArea,
    /// The open area with this index has no candidate: no digits fit it, and
    /// the puzzle cannot be solved as given.
    NoCandidates { area: usize },
}

/// What the rows of a puzzle hold at `(r, c)`: the given digit, or `0` for a
/// blank cell and for a cell that the rows do not reach.
pub open spec fn given_cell(rows: Seq<SudokuRowConfig>, r: int, c: int) -> i32 {
    if 0 <= r < rows.len() && 0 <= c < rows[r].row@.len() {
        match rows[r].row@[c] {
            Some(digit) => digit,
            None => 0,
        }
    } else {
        0
    }
}

/// The board that the rows of a puzzle describe.
pub open spec fn given_grid(rows: Seq<SudokuRowConfig>) -> Seq<Seq<i32>> {
    Seq::new(9, |r: int| Seq::new(9, |c: int| given_cell(rows, r, c)))
}

/// An area of a puzzle as an open area without candidates.
pub open spec fn fresh_area(config: AreaConfig) -> AreaView {
    AreaView { fields: nested(config.fields@), value: config.value, combinations: Seq::empty() }
}

/// The areas of a puzzle as open areas without candidates.
pub open spec fn fresh_areas(configs: Seq<AreaConfig>) -> Seq<AreaView> {
    Seq::new(configs.len(), |k: int| fresh_area(configs[k]))
}

/// Makes the open areas of a puzzle: each with the fields and the sum of its
/// description, and without candidates yet.
pub fn copy_areas(game_config: &GameBoardConfig) -> (area_new: Vec<Area>)
    ensures
        area_views(area_new@) == fresh_areas(game_config.area@),
{
    let mut area_new: Vec<Area> = Vec::new();
    let mut k: usize = 0;
    while k < game_config.area.len()
        invariant
            k <= game_config.area@.len(),
            area_new@.len() == k,
            forall|j: int|
                0 <= j < k ==> (#[trigger] area_new@[j])@ == fresh_area(game_config.area@[j]),
        decreases game_config.area@.len() - k,
    {
        let sel_area = &game_config.area[k];
        let fields = sel_area.fields.clone();
        assert(nested(fields@) =~= nested(sel_area.fields@));
        let sel_area_new = Area { fields, value: sel_area.value, combinations: Vec::new() };
        assert(sel_area_new@.combinations =~= Seq::<Seq<i32>>::empty());
        area_new.push(sel_area_new);
        k += 1;
    }
    assert(area_views(area_new@) =~= fresh_areas(game_config.area@));
    area_new
}

/// Makes the board of a puzzle: each cell takes the digit that the rows give
/// for it. A cell that is given as blank, or that the rows do not reach, is
/// blank; rows and cells beyond the ninth are left out.
pub fn copy_raw_sudoku(game_config: &GameBoardConfig) -> (sudoku_new: Grid)
    ensures
        sudoku_new@ == given_grid(game_config.sudoku@),
{
    let rows = &game_config.sudoku;
    let mut sudoku_new = Grid::blank();
    let mut i: usize = 0;
    while i < 9 && i < rows.len()
        invariant
            i <= 9,
            forall|r: int, c: int|
                on_board(r, c) ==> sudoku_new@[r][c] == if r < i {
                    given_cell(rows@, r, c)
                } else {
                    0
                },
        decreases 9 - i,
    {
        let mut j: usize = 0;
        while j < 9 && j < rows[i].row.len()
            invariant
                i < 9,
                i < rows@.len(),
                j <= 9,
                forall|r: int, c: int|
                    on_board(r, c) ==> sudoku_new@[r][c] == if r < i || (r == i && c < j) {
                        given_cell(rows@, r, c)
                    } else {
                        0
                    },
            decreases 9 - j,
        {
            let cell = match rows[i].row[j] {
                Some(digit) => digit,
                None => 0,
            };
            sudoku_new.put(i, j, cell);
            j += 1;
        }
        i += 1;
    }
    proof {
        let given = given_grid(game_config.sudoku@);
        assert forall|r: int| 0 <= r < 9 implies sudoku_new@[r] == given[r] by {
            assert forall|c: int| 0 <= c < 9 implies sudoku_new@[r][c] == given[r][c] by {
                assert(on_board(r, c));
            }
            assert(sudoku_new@[r] =~= given[r]);
        }
        assert(sudoku_new@ =~= given);
    }
    sudoku_new
}

impl GameBoard {
    /// Sets up the board of a puzzle: the three grids hold the puzzle as
    /// given, every area is open and has no candidates yet, and the trace is
    /// empty.
    pub fn new(game_config: &GameBoardConfig) -> (board: GameBoard)
        ensures
            board.sudoku@ == given_grid(game_config.sudoku@),
            board.curr_iter@ == given_grid(game_config.sudoku@),
            board.best_iter@ == given_grid(game_config.sudoku@),
            area_views(board.area@) == fresh_areas(game_config.area@),
            board.energy_x@.len() == 0,
            board.energy_y@.len() == 0,
    {
        GameBoard {
            area: copy_areas(game_config),
            sudoku: copy_raw_sudoku(game_config),
            curr_iter: copy_raw_sudoku(game_config),
            best_iter: copy_raw_sudoku(game_config),
            energy_x: Vec::new(),
            energy_y: Vec::new(),
        }
    }
}

} // verus!
