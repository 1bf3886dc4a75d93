use sum_sudoku::anneal::{AnnealAction, Annealer, PROPOSALS_PER_LEVEL};
use sum_sudoku::area::Area;
use sum_sudoku::assign::Diagnostic;
use sum_sudoku::board::{GameBoard, SolveError};
use sum_sudoku::energy::count_duplicates;
use sum_sudoku::filter::check_conflict_with_init;
use sum_sudoku::game_config::{AreaConfig, GameBoardConfig, SudokuRowConfig};
use sum_sudoku::grid::Grid;

fn board_of(rows: Vec<Vec<i32>>, areas: Vec<(Vec<Vec<i32>>, i32)>) -> GameBoard {
    GameBoard::new(&GameBoardConfig {
        sudoku: rows
            .into_iter()
            .map(|row| SudokuRowConfig {
                row: row.into_iter().map(|v| if v == 0 { None } else { Some(v) }).collect(),
            })
            .collect(),
        area: areas.into_iter().map(|(fields, value)| AreaConfig { fields, value }).collect(),
    })
}

fn blank_rows() -> Vec<Vec<i32>> {
    vec![vec![0; 9]; 9]
}

fn pair_area(row: i32, candidates: Vec<Vec<i32>>) -> Area {
    Area { fields: vec![vec![row, 0], vec![row, 1]], value: 0, combinations: candidates }
}

#[test]
fn the_filter_drops_candidates_that_repeat_a_given_digit() {
    let mut reference = Grid::blank();
    reference.cells[5][0] = 9;
    let mut area = pair_area(0, vec![vec![9, 8], vec![8, 9]]);
    let notes = check_conflict_with_init(&mut area, reference);
    assert!(notes.is_empty());
    assert_eq!(area.combinations, vec![vec![9, 8]]);
    assert_eq!(area.fields, vec![vec![0, 0], vec![0, 1]]);
    assert_eq!(area.value, 0);
}

#[test]
fn the_filter_keeps_the_order_of_what_stays() {
    let mut reference = Grid::blank();
    reference.cells[0][8] = 2;
    let mut area =
        pair_area(0, vec![vec![4, 1], vec![3, 2], vec![2, 3], vec![1, 4], vec![5, 6], vec![2, 7]]);
    check_conflict_with_init(&mut area, reference);
    assert_eq!(area.combinations, vec![vec![4, 1], vec![1, 4], vec![5, 6]]);
}

#[test]
fn the_filter_keeps_everything_on_a_blank_board() {
    let mut area = pair_area(3, vec![vec![4, 1], vec![3, 2], vec![2, 3], vec![1, 4]]);
    check_conflict_with_init(&mut area, Grid::blank());
    assert_eq!(area.combinations, vec![vec![4, 1], vec![3, 2], vec![2, 3], vec![1, 4]]);
}

#[test]
fn the_filter_drops_everything_on_a_board_with_a_repeat() {
    let mut reference = Grid::blank();
    reference.cells[8][7] = 6;
    reference.cells[8][8] = 6;
    let mut area = pair_area(0, vec![vec![4, 1], vec![3, 2]]);
    check_conflict_with_init(&mut area, reference);
    assert!(area.combinations.is_empty());
}

#[test]
fn the_filter_drops_a_candidate_with_a_digit_twice() {
    let mut area = pair_area(0, vec![vec![3, 3], vec![1, 2], vec![7, 7]]);
    check_conflict_with_init(&mut area, Grid::blank());
    assert_eq!(area.combinations, vec![vec![1, 2]]);
}

#[test]
fn the_filter_of_no_candidates_does_nothing() {
    let mut area = pair_area(0, vec![]);
    let notes = check_conflict_with_init(&mut area, Grid::blank());
    assert!(notes.is_empty());
    assert!(area.combinations.is_empty());
}

#[test]
fn the_filter_notes_what_each_trial_passes_over() {
    let mut area = Area {
        fields: vec![vec![0, 0], vec![9, 9], vec![0, 1]],
        value: 3,
        combinations: vec![vec![1], vec![1, 2]],
    };
    let notes = check_conflict_with_init(&mut area, Grid::blank());
    assert_eq!(
        notes,
        vec![
            Diagnostic::OutOfBounds { row: 9, col: 9 },
            Diagnostic::Exhausted,
            Diagnostic::OutOfBounds { row: 9, col: 9 },
        ]
    );
    assert_eq!(area.combinations, vec![vec![1], vec![1, 2]]);
}

#[test]
fn reduce_combinations_filters_every_area_against_the_puzzle() {
    let mut rows = blank_rows();
    rows[0][5] = 1;
    rows[5][1] = 3;
    let mut board = board_of(
        rows,
        vec![(vec![vec![0, 0], vec![0, 1]], 5), (vec![vec![1, 0], vec![1, 1]], 5)],
    );
    board.prepare_game();
    let working = board.curr_iter;
    let notes = board.reduce_combinations();
    assert!(notes.is_empty());
    // Row 0 holds a 1: no candidate with 1 stays; and the second cell is in
    // the column of a 3, so it cannot take 3 (the first digit of a candidate).
    assert_eq!(board.area[0].combinations, vec![vec![2, 3]]);
    // Row 1: only the column rules out 3 in the second cell.
    assert_eq!(board.area[1].combinations, vec![vec![4, 1], vec![2, 3], vec![1, 4]]);
    assert_eq!(board.curr_iter, working);
    assert_eq!(board.area.len(), 2);
}

#[test]
fn propose_fills_the_cells_that_are_blank_in_the_puzzle() {
    let mut rows = blank_rows();
    rows[0][1] = 7;
    let mut board = board_of(rows, vec![]);
    board.area = vec![Area {
        fields: vec![vec![0, 0], vec![0, 1], vec![0, 2]],
        value: 12,
        combinations: vec![vec![1, 4], vec![4, 1]],
    }];
    board.curr_iter.cells[0][0] = 9;
    board.curr_iter.cells[4][4] = 2;
    let before = board.clone();
    let (grid, notes) = board.propose(0, 0).unwrap();
    assert!(notes.is_empty());
    let mut expected = before.curr_iter;
    expected.cells[0][0] = 4;
    expected.cells[0][2] = 1;
    assert_eq!(grid, expected);
    assert_eq!(grid.cells[0][1], 7);
    let (other, _) = board.propose(0, 1).unwrap();
    assert_eq!(other.cells[0][0], 1);
    assert_eq!(other.cells[0][2], 4);
    // The board itself is left alone.
    assert_eq!(board.curr_iter, before.curr_iter);
    assert_eq!(board.sudoku, before.sudoku);
    assert_eq!(board.area, before.area);
}

#[test]
fn propose_knows_its_areas_and_candidates() {
    let mut board = board_of(blank_rows(), vec![]);
    board.area = vec![pair_area(0, vec![vec![1, 2]]), pair_area(1, vec![])];
    assert!(board.propose(0, 0).is_some());
    assert!(board.propose(0, 1).is_none());
    assert!(board.propose(1, 0).is_none());
    assert!(board.propose(2, 0).is_none());
    assert!(board.propose(usize::MAX, usize::MAX).is_none());
}

#[test]
fn propose_notes_what_it_passes_over() {
    let mut board = board_of(blank_rows(), vec![]);
    board.area = vec![Area {
        fields: vec![vec![0, 0], vec![0, 1], vec![5]],
        value: 1,
        combinations: vec![vec![6]],
    }];
    let (grid, notes) = board.propose(0, 0).unwrap();
    assert_eq!(notes, vec![Diagnostic::Exhausted, Diagnostic::InvalidFormat]);
    assert_eq!(grid.cells[0][0], 6);
    assert_eq!(grid.cells[0][1], 0);
}

#[test]
fn swap_needs_an_open_area() {
    let board = board_of(blank_rows(), vec![]);
    assert_eq!(board.swap(), Err(SolveError::NoActiveArea));
}

#[test]
fn swap_needs_a_candidate() {
    let mut board = board_of(blank_rows(), vec![]);
    board.area = vec![pair_area(0, vec![])];
    assert_eq!(board.swap(), Err(SolveError::NoCandidates { area: 0 }));
}

#[test]
fn swap_with_one_choice_makes_that_neighbour() {
    let mut board = board_of(blank_rows(), vec![]);
    board.area = vec![pair_area(2, vec![vec![3, 5]])];
    for _ in 0..50 {
        let (grid, notes) = board.swap().unwrap();
        assert!(notes.is_empty());
        let mut expected = Grid::blank();
        expected.cells[2][0] = 5;
        expected.cells[2][1] = 3;
        assert_eq!(grid, expected);
    }
    assert_eq!(board.curr_iter, Grid::blank());
}

#[test]
fn swap_makes_one_of_the_neighbours_that_propose_makes() {
    let mut board = board_of(blank_rows(), vec![]);
    board.area = vec![
        pair_area(0, vec![vec![1, 2], vec![3, 4]]),
        pair_area(1, vec![vec![5, 6], vec![7, 8], vec![9, 1]]),
    ];
    let mut choices = Vec::new();
    for area_id in 0..2 {
        for comb_id in 0..board.area[area_id].combinations.len() {
            choices.push(board.propose(area_id, comb_id).unwrap().0);
        }
    }
    let mut seen = vec![false; choices.len()];
    for _ in 0..400 {
        let (grid, _) = board.swap().unwrap();
        let at = choices.iter().position(|choice| *choice == grid);
        assert!(at.is_some());
        seen[at.unwrap()] = true;
    }
    assert!(seen.iter().all(|s| *s));
}

#[test]
fn begin_annealing_fills_the_grid_and_keeps_it_as_the_best() {
    let mut board = board_of(
        blank_rows(),
        vec![(vec![vec![0, 0], vec![0, 1]], 5), (vec![vec![1, 0], vec![1, 1]], 17)],
    );
    board.prepare_game();
    board.resolve_simple();
    board.energy_x = vec![41];
    board.energy_y = vec![3];
    let (run, notes) = board.begin_annealing().unwrap();
    assert!(notes.is_empty());
    assert_eq!(run.iteration, 0);
    assert_eq!(board.curr_iter.cells[0][0], 1);
    assert_eq!(board.curr_iter.cells[0][1], 4);
    assert_eq!(board.curr_iter.cells[1][0], 8);
    assert_eq!(board.curr_iter.cells[1][1], 9);
    assert_eq!(board.best_iter, board.curr_iter);
    assert_eq!(board.sudoku, Grid::blank());
    assert_eq!(board.energy_x, vec![41]);
    assert_eq!(board.energy_y, vec![3]);
}

#[test]
fn begin_annealing_fails_on_an_area_without_candidates() {
    let mut board = board_of(
        blank_rows(),
        vec![(vec![vec![0, 0], vec![0, 1]], 40), (vec![vec![1, 0], vec![1, 1]], 5)],
    );
    board.prepare_game();
    board.curr_iter.cells[6][6] = 6;
    let before = board.clone();
    assert_eq!(board.begin_annealing(), Err(SolveError::NoCandidates { area: 0 }));
    assert_eq!(board.curr_iter, before.curr_iter);
    assert_eq!(board.best_iter, before.best_iter);
}

fn with_repeats(count: usize) -> Grid {
    // Row `i` holds the digit `i + 1` twice. The digits differ from row to
    // row, so no column and no box repeats one.
    let mut grid = Grid::blank();
    for i in 0..count {
        grid.cells[i][0] = i as i32 + 1;
        grid.cells[i][8] = i as i32 + 1;
    }
    grid
}

#[test]
fn with_repeats_has_the_energy_it_is_made_for() {
    assert_eq!(count_duplicates(&with_repeats(0)), 0);
    assert_eq!(count_duplicates(&with_repeats(1)), 1);
    assert_eq!(count_duplicates(&with_repeats(2)), 2);
    assert_eq!(count_duplicates(&with_repeats(9)), 9);
}

#[test]
fn energy_delta_is_the_difference_of_the_energies() {
    let mut board = board_of(blank_rows(), vec![]);
    board.curr_iter = with_repeats(2);
    assert_eq!(board.energy_delta(&with_repeats(3)), 1);
    assert_eq!(board.energy_delta(&with_repeats(2)), 0);
    assert_eq!(board.energy_delta(&with_repeats(1)), -1);
    assert_eq!(board.energy_delta(&Grid::blank()), -2);
    board.curr_iter = Grid::blank();
    assert_eq!(board.energy_delta(&Grid { cells: [[7; 9]; 9] }), 27);
}

#[test]
fn a_step_downhill_is_taken_whatever_the_draw() {
    let mut board = board_of(blank_rows(), vec![]);
    board.curr_iter = with_repeats(3);
    board.best_iter = with_repeats(3);
    let mut run = Annealer { iteration: 0 };
    let action = board.consider(&mut run, with_repeats(2), false);
    assert_eq!(action, AnnealAction::Propose);
    assert_eq!(board.curr_iter, with_repeats(2));
    assert_eq!(board.best_iter, with_repeats(2));
    assert_eq!(board.energy_x, vec![0]);
    assert_eq!(board.energy_y, vec![2]);
    assert_eq!(run.iteration, 1);
}

#[test]
fn a_step_uphill_is_taken_only_if_the_draw_allows_it() {
    let mut board = board_of(blank_rows(), vec![]);
    board.curr_iter = with_repeats(1);
    board.best_iter = with_repeats(1);
    let mut run = Annealer { iteration: 7 };
    board.consider(&mut run, with_repeats(2), false);
    assert_eq!(board.curr_iter, with_repeats(1));
    assert_eq!(board.best_iter, with_repeats(1));
    board.consider(&mut run, with_repeats(2), true);
    assert_eq!(board.curr_iter, with_repeats(2));
    assert_eq!(board.best_iter, with_repeats(1));
    // Rejected or not, both proposals are on the trace.
    assert_eq!(board.energy_x, vec![7, 8]);
    assert_eq!(board.energy_y, vec![2, 2]);
    assert_eq!(run.iteration, 9);
}

#[test]
fn a_step_on_the_level_needs_the_draw() {
    let mut board = board_of(blank_rows(), vec![]);
    let mut other = with_repeats(1);
    other.cells[7][7] = 3;
    board.curr_iter = with_repeats(1);
    board.best_iter = with_repeats(1);
    let mut run = Annealer { iteration: 0 };
    board.consider(&mut run, other, false);
    assert_eq!(board.curr_iter, with_repeats(1));
    board.consider(&mut run, other, true);
    assert_eq!(board.curr_iter, other);
    // Not below the best: the best grid stays.
    assert_eq!(board.best_iter, with_repeats(1));
}

#[test]
fn the_best_grid_changes_only_for_a_lower_energy() {
    let mut board = board_of(blank_rows(), vec![]);
    board.curr_iter = with_repeats(3);
    board.best_iter = with_repeats(1);
    let mut run = Annealer { iteration: 0 };
    // Downhill from the working grid, but not below the best.
    board.consider(&mut run, with_repeats(2), false);
    assert_eq!(board.curr_iter, with_repeats(2));
    assert_eq!(board.best_iter, with_repeats(1));
    board.consider(&mut run, Grid::blank(), false);
    assert_eq!(board.best_iter, Grid::blank());
}

#[test]
fn consider_leaves_the_puzzle_and_the_areas_alone() {
    let mut board = board_of(blank_rows(), vec![(vec![vec![0, 0], vec![0, 1]], 5)]);
    board.prepare_game();
    let before = board.clone();
    let mut run = Annealer { iteration: 0 };
    board.consider(&mut run, with_repeats(2), true);
    assert_eq!(board.sudoku, before.sudoku);
    assert_eq!(board.area, before.area);
}

#[test]
fn every_hundredth_proposal_ends_a_level() {
    assert_eq!(PROPOSALS_PER_LEVEL, 100);
    let mut board = board_of(blank_rows(), vec![]);
    let mut run = Annealer { iteration: 0 };
    for step in 1..=350u32 {
        let action = board.consider(&mut run, Grid::blank(), false);
        if step % 100 == 0 {
            assert_eq!(action, AnnealAction::Cool);
        } else {
            assert_eq!(action, AnnealAction::Propose);
        }
    }
    assert_eq!(run.iteration, 350);
    assert_eq!(board.energy_x, (0..350).collect::<Vec<i32>>());
    assert_eq!(board.energy_y, vec![0; 350]);
}

#[test]
fn the_best_energy_follows_the_lowest_of_the_trace() {
    let mut board = board_of(blank_rows(), vec![]);
    board.curr_iter = with_repeats(4);
    board.best_iter = with_repeats(4);
    let start = count_duplicates(&board.best_iter) as i32;
    let mut run = Annealer { iteration: 0 };
    let mut lowest = start;
    let mut last_best = start;
    let mut state: u32 = 12345;
    for _ in 0..300 {
        state = state.wrapping_mul(1103515245).wrapping_add(12345);
        let repeats = 2 + ((state >> 16) % 6) as usize;
        let draw = (state >> 8) % 3 == 0;
        board.consider(&mut run, with_repeats(repeats), draw);
        let recorded = *board.energy_y.last().unwrap();
        assert_eq!(recorded, count_duplicates(&with_repeats(repeats)) as i32);
        lowest = lowest.min(recorded);
        let best = count_duplicates(&board.best_iter) as i32;
        assert!(best <= last_best);
        assert_eq!(best, lowest);
        assert!(best <= count_duplicates(&board.curr_iter) as i32);
        last_best = best;
    }
    assert!(last_best <= start);
    assert_eq!(board.energy_y.len(), 300);
}
