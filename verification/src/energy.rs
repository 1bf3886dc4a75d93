//! The energy of a board: how many digits repeat inside its rows, columns
//! and 3×3 boxes.

use crate::grid::{is_grid, Grid};
use std::collections::HashSet;
use vstd::prelude::*;

verus! {

/// The value `v` stands at two different places of `s`.
pub open spec fn repeats(s: Seq<i32>, v: i32) -> bool {
    exists|i: int, j: int| 0 <= i < j < s.len() && s[i] == v && s[j] == v
}

/// The non-blank values that occur somewhere in `s`.
pub open spec fn present_values(s: Seq<i32>) -> Set<i32> {
    Set::new(|v: i32| v != 0 && s.contains(v))
}

/// The non-blank values that occur more than once in `s`.
pub open spec fn repeated_values(s: Seq<i32>) -> Set<i32> {
    Set::new(|v: i32| v != 0 && repeats(s, v))
}

/// The number of distinct non-blank values that occur more than once in `s`.
pub open spec fn group_energy(s: Seq<i32>) -> nat {
    repeated_values(s).len()
}

/// The cells of column `c`, top to bottom.
pub open spec fn column_group(g: Seq<Seq<i32>>, c: int) -> Seq<i32> {
    Seq::new(9, |r: int| g[r][c])
}

/// The cells of box `b`, row by row. Boxes are numbered row by row too, so box
/// `b` starts at row `3 * (b / 3)` and column `3 * (b % 3)`.
pub open spec fn box_group(g: Seq<Seq<i32>>, b: int) -> Seq<i32> {
    Seq::new(9, |k: int| g[3 * (b / 3) + k / 3][3 * (b % 3) + k % 3])
}

/// The 27 groups of a board: rows 0 to 8, then columns 0 to 8, then boxes 0 to 8.
pub open spec fn group(g: Seq<Seq<i32>>, k: int) -> Seq<i32> {
    if k < 9 {
        g[k]
    } else if k < 18 {
        column_group(g, k - 9)
    } else {
        box_group(g, k - 18)
    }
}

/// The energy of the first `n` groups.
pub open spec fn energy_below(g: Seq<Seq<i32>>, n: int) -> nat
    decreases n,
{
    if n <= 0 {
        0
    } else {
        energy_below(g, n - 1) + group_energy(group(g, n - 1))
    }
}

/// The energy of a board: the sum over its 27 groups of the number of
/// distinct non-blank values that repeat inside the group.
pub open spec fn energy(g: Seq<Seq<i32>>) -> nat {
    energy_below(g, 27)
}

/// No non-blank value stands twice in `s`.
pub open spec fn repeat_free(s: Seq<i32>) -> bool {
    forall|i: int, j: int| 0 <= i < j < s.len() && s[i] != 0 ==> s[i] != s[j]
}

/// No row, column or box of `g` holds a non-blank value twice.
pub open spec fn conflict_free(g: Seq<Seq<i32>>) -> bool {
    forall|k: int| 0 <= k < 27 ==> repeat_free(#[trigger] group(g, k))
}

/// What one more cell does to the values seen and to the values repeated.
proof fn lemma_values_push(s: Seq<i32>, x: i32)
    ensures
        x == 0 ==> present_values(s.push(x)) == present_values(s),
        x == 0 ==> repeated_values(s.push(x)) == repeated_values(s),
        x != 0 ==> present_values(s.push(x)) == present_values(s).insert(x),
        x != 0 && !present_values(s).contains(x) ==> repeated_values(s.push(x)) == repeated_values(
            s,
        ),
        x != 0 && present_values(s).contains(x) ==> repeated_values(s.push(x)) == repeated_values(
            s,
        ).insert(x),
{
    let t = s.push(x);
    assert forall|v: i32| s.contains(v) implies t.contains(v) by {
        let i = choose|i: int| 0 <= i < s.len() && s[i] == v;
        assert(t[i] == v);
    }
    assert(t[s.len() as int] == x);
    assert forall|v: i32| t.contains(v) implies s.contains(v) || v == x by {
        let i = choose|i: int| 0 <= i < t.len() && t[i] == v;
        if i < s.len() {
            assert(s[i] == v);
        }
    }
    assert forall|v: i32| repeats(s, v) implies repeats(t, v) by {
        let (i, j) = choose|i: int, j: int| 0 <= i < j < s.len() && s[i] == v && s[j] == v;
        assert(t[i] == v && t[j] == v);
    }
    assert forall|v: i32| repeats(t, v) implies repeats(s, v) || (v == x && s.contains(v)) by {
        let (i, j) = choose|i: int, j: int| 0 <= i < j < t.len() && t[i] == v && t[j] == v;
        if j < s.len() {
            assert(s[i] == v && s[j] == v);
        } else {
            assert(s[i] == v);
        }
    }
    if s.contains(x) {
        let i = choose|i: int| 0 <= i < s.len() && s[i] == x;
        assert(t[i] == x && t[s.len() as int] == x);
        assert(repeats(t, x));
    }
    if x == 0 {
        assert(present_values(t) =~= present_values(s));
        assert(repeated_values(t) =~= repeated_values(s));
    } else {
        assert(present_values(t) =~= present_values(s).insert(x));
        if present_values(s).contains(x) {
            assert(repeated_values(t) =~= repeated_values(s).insert(x));
        } else {
            assert(repeated_values(t) =~= repeated_values(s));
        }
    }
}

/// The repeated values of a sequence are finitely many, no more than it has places.
pub proof fn lemma_repeated_values_finite(s: Seq<i32>)
    ensures
        repeated_values(s).finite(),
        repeated_values(s).len() <= s.len(),
    decreases s.len(),
{
    if s.len() == 0 {
        assert(repeated_values(s) =~= Set::<i32>::empty());
    } else {
        let head = s.drop_last();
        lemma_repeated_values_finite(head);
        lemma_values_push(head, s.last());
        assert(head.push(s.last()) =~= s);
        vstd::set::axiom_set_insert_finite(repeated_values(head), s.last());
        vstd::set::axiom_set_insert_len(repeated_values(head), s.last());
    }
}

/// A group has energy zero exactly when no non-blank value repeats in it.
pub proof fn lemma_group_energy_zero(s: Seq<i32>)
    ensures
        group_energy(s) == 0 <==> repeat_free(s),
{
    lemma_repeated_values_finite(s);
    let reps = repeated_values(s);
    if repeat_free(s) {
        assert forall|v: i32| !reps.contains(v) by {
            if v != 0 && repeats(s, v) {
                let (i, j) = choose|i: int, j: int| 0 <= i < j < s.len() && s[i] == v && s[j] == v;
                assert(s[i] != s[j]);
            }
        }
        assert(reps =~= Set::<i32>::empty());
    } else {
        let (i, j) = choose|i: int, j: int| 0 <= i < j < s.len() && s[i] != 0 && s[i] == s[j];
        assert(repeats(s, s[i]));
        assert(reps.contains(s[i]));
        vstd::set::axiom_set_contains_len(reps, s[i]);
    }
}

/// Counts the distinct non-blank values that occur more than once in `numbers`.
pub fn count_duplicates_in_set(numbers: &[i32]) -> (count: usize)
    ensures
        count == group_energy(numbers@),
        count <= numbers@.len(),
{
    broadcast use vstd::std_specs::hash::group_hash_axioms;

    let mut seen: HashSet<i32> = HashSet::new();
    let mut duplicates: HashSet<i32> = HashSet::new();
    assert(present_values(numbers@.take(0)) =~= Set::<i32>::empty());
    assert(repeated_values(numbers@.take(0)) =~= Set::<i32>::empty());
    let mut idx: usize = 0;
    while idx < numbers.len()
        invariant
            idx <= numbers@.len(),
            seen@ == present_values(numbers@.take(idx as int)),
            duplicates@ == repeated_values(numbers@.take(idx as int)),
        decreases numbers@.len() - idx,
    {
        let num = numbers[idx];
        proof {
            lemma_values_push(numbers@.take(idx as int), num);
            assert(numbers@.take(idx as int).push(num) =~= numbers@.take(idx + 1));
        }
        // A blank cell is no digit and repeats nothing.
        if num != 0 {
            if !seen.insert(num) {
                duplicates.insert(num);
            }
        }
        idx += 1;
    }
    proof {
        assert(numbers@.take(idx as int) =~= numbers@);
        lemma_repeated_values_finite(numbers@);
    }
    duplicates.len()
}

/// Counts the rule violations of a board: for each row, column and 3×3 box
/// the number of distinct non-blank values that occur more than once in it,
/// added up over all 27 groups.
pub fn count_duplicates(sudoku: &Grid) -> (total: usize)
    ensures
        total == energy(sudoku@),
        total == 0 <==> conflict_free(sudoku@),
        total <= 243,
{
    proof {
        lemma_energy_zero_iff_conflict_free(sudoku@);
    }
    let mut total: usize = 0;

    // Rows.
    let mut row: usize = 0;
    while row < 9
        invariant
            row <= 9,
            total == energy_below(sudoku@, row as int),
            total <= 9 * row,
        decreases 9 - row,
    {
        let cells = sudoku.cells[row].as_slice();
        assert(cells@ =~= group(sudoku@, row as int));
        total += count_duplicates_in_set(cells);
        row += 1;
    }

    // Columns.
    let mut col: usize = 0;
    while col < 9
        invariant
            col <= 9,
            total == energy_below(sudoku@, 9 + col),
            total <= 9 * (9 + col),
        decreases 9 - col,
    {
        let mut column: Vec<i32> = Vec::with_capacity(9);
        let mut row: usize = 0;
        while row < 9
            invariant
                col < 9,
                row <= 9,
                column@.len() == row,
                forall|i: int| 0 <= i < row ==> column@[i] == sudoku@[i][col as int],
            decreases 9 - row,
        {
            column.push(sudoku.cells[row][col]);
            row += 1;
        }
        assert(column@ =~= group(sudoku@, 9 + col));
        total += count_duplicates_in_set(column.as_slice());
        col += 1;
    }

    // 3×3 boxes.
    let mut band: usize = 0;
    while band < 3
        invariant
            band <= 3,
            total == energy_below(sudoku@, 18 + 3 * band),
            total <= 9 * (18 + 3 * band),
        decreases 3 - band,
    {
        let mut stack: usize = 0;
        while stack < 3
            invariant
                band < 3,
                stack <= 3,
                total == energy_below(sudoku@, 18 + 3 * band + stack),
                total <= 9 * (18 + 3 * band + stack),
            decreases 3 - stack,
        {
            let grid_row = 3 * band;
            let grid_col = 3 * stack;
            let mut sub_grid: Vec<i32> = Vec::with_capacity(9);
            let mut i: usize = 0;
            while i < 3
                invariant
                    band < 3,
                    stack < 3,
                    grid_row == 3 * band,
                    grid_col == 3 * stack,
                    i <= 3,
                    sub_grid@.len() == 3 * i,
                    forall|k: int|
                        0 <= k < 3 * i ==> sub_grid@[k] == sudoku@[grid_row + k / 3][grid_col + k
                            % 3],
                decreases 3 - i,
            {
                let mut j: usize = 0;
                while j < 3
                    invariant
                        band < 3,
                        stack < 3,
                        grid_row == 3 * band,
                        grid_col == 3 * stack,
                        i < 3,
                        j <= 3,
                        sub_grid@.len() == 3 * i + j,
                        forall|k: int|
                            0 <= k < 3 * i + j ==> sub_grid@[k] == sudoku@[grid_row + k
                                / 3][grid_col + k % 3],
                    decreases 3 - j,
                {
                    sub_grid.push(sudoku.cells[grid_row + i][grid_col + j]);
                    j += 1;
                }
                i += 1;
            }
            assert(sub_grid@ =~= group(sudoku@, 18 + 3 * band + stack));
            total += count_duplicates_in_set(sub_grid.as_slice());
            stack += 1;
        }
        band += 1;
    }

    total
}

/// The first `n` groups have energy zero exactly when none of them holds a
/// non-blank value twice.
proof fn lemma_energy_below_zero(g: Seq<Seq<i32>>, n: int)
    requires
        0 <= n <= 27,
    ensures
        energy_below(g, n) == 0 <==> forall|k: int|
            0 <= k < n ==> repeat_free(#[trigger] group(g, k)),
    decreases n,
{
    if n > 0 {
        lemma_energy_below_zero(g, n - 1);
        lemma_group_energy_zero(group(g, n - 1));
        if energy_below(g, n) == 0 {
            assert forall|k: int| 0 <= k < n implies repeat_free(#[trigger] group(g, k)) by {
                if k < n - 1 {
                } else {
                    assert(k == n - 1);
                }
            }
        }
    }
}

/// The energy of a board is zero if no row, column or box repeats a
/// non-blank value, and positive otherwise.
pub proof fn lemma_energy_zero_iff_conflict_free(g: Seq<Seq<i32>>)
    ensures
        energy(g) == 0 <==> conflict_free(g),
        !conflict_free(g) ==> energy(g) > 0,
{
    lemma_energy_below_zero(g, 27);
}

/// `h` keeps every non-blank cell of `g`: it is `g` with some blanks filled.
pub open spec fn fills(g: Seq<Seq<i32>>, h: Seq<Seq<i32>>) -> bool {
    &&& is_grid(g)
    &&& is_grid(h)
    &&& forall|r: int, c: int| 0 <= r < 9 && 0 <= c < 9 && g[r][c] != 0 ==> h[r][c] == g[r][c]
}

/// Every value that repeats in a group of `h` repeats in that group of `g` already.
pub open spec fn adds_no_repeat(g: Seq<Seq<i32>>, h: Seq<Seq<i32>>) -> bool {
    forall|k: int, v: i32|
        0 <= k < 27 && v != 0 && #[trigger] repeats(group(h, k), v) ==> repeats(group(g, k), v)
}

/// A cell of a group of `g` that is not blank is the same in every filling of `g`.
proof fn lemma_fills_group(g: Seq<Seq<i32>>, h: Seq<Seq<i32>>, k: int, i: int)
    requires
        fills(g, h),
        0 <= k < 27,
        0 <= i < 9,
        group(g, k)[i] != 0,
    ensures
        group(h, k)[i] == group(g, k)[i],
        group(g, k).len() == 9,
        group(h, k).len() == 9,
{
    if k < 9 {
        assert(g[k][i] != 0);
    } else if k < 18 {
        assert(g[i][k - 9] != 0);
    } else {
        let b = k - 18;
        assert(g[3 * (b / 3) + i / 3][3 * (b % 3) + i % 3] != 0);
    }
}

/// Filling blank cells leaves the energy as it was when the filling brings
/// no new repeat into any row, column or box.
pub proof fn lemma_energy_unchanged_by_filling(g: Seq<Seq<i32>>, h: Seq<Seq<i32>>)
    requires
        fills(g, h),
        adds_no_repeat(g, h),
    ensures
        energy(h) == energy(g),
{
    lemma_energy_below_filling(g, h, 27);
}

proof fn lemma_energy_below_filling(g: Seq<Seq<i32>>, h: Seq<Seq<i32>>, n: int)
    requires
        fills(g, h),
        adds_no_repeat(g, h),
        0 <= n <= 27,
    ensures
        energy_below(h, n) == energy_below(g, n),
    decreases n,
{
    if n > 0 {
        lemma_energy_below_filling(g, h, n - 1);
        let k = n - 1;
        let sg = group(g, k);
        let sh = group(h, k);
        assert forall|v: i32| repeated_values(sg).contains(v) implies repeated_values(
            sh,
        ).contains(v) by {
            let (i, j) = choose|i: int, j: int| 0 <= i < j < sg.len() && sg[i] == v && sg[j] == v;
            assert(sg.len() == 9) by {
                if k < 9 {
                } else if k < 18 {
                } else {
                }
            }
            lemma_fills_group(g, h, k, i);
            lemma_fills_group(g, h, k, j);
            assert(repeats(sh, v));
        }
        assert forall|v: i32| repeated_values(sh).contains(v) implies repeated_values(
            sg,
        ).contains(v) by {
            assert(repeats(group(h, k), v));
        }
        assert(repeated_values(sh) =~= repeated_values(sg));
    }
}

/// However the blank cells of a board are filled, two fillings that bring no
/// new repeat into any row, column or box have the same energy.
pub proof fn lemma_energy_of_two_fillings(g: Seq<Seq<i32>>, h1: Seq<Seq<i32>>, h2: Seq<Seq<i32>>)
    requires
        fills(g, h1),
        fills(g, h2),
        adds_no_repeat(g, h1),
        adds_no_repeat(g, h2),
    ensures
        energy(h1) == energy(h2),
{
    lemma_energy_unchanged_by_filling(g, h1);
    lemma_energy_unchanged_by_filling(g, h2);
}

} // verus!
