use sum_sudoku::area::{combinations, remove_duplicates, Area};

fn as_sets(list: &Vec<Vec<i32>>) -> Vec<Vec<i32>> {
    let mut sets: Vec<Vec<i32>> = list
        .iter()
        .map(|c| {
            let mut sorted = c.clone();
            sorted.sort();
            sorted
        })
        .collect();
    sets.sort();
    sets.dedup();
    sets
}

fn subsets_by_brute_force(n: usize, s: i32) -> Vec<Vec<i32>> {
    let mut found = Vec::new();
    for mask in 0u32..512 {
        let digits: Vec<i32> = (1..=9).filter(|d| mask & (1 << (d - 1)) != 0).collect();
        if digits.len() == n && digits.iter().sum::<i32>() == s {
            found.push(digits);
        }
    }
    found.sort();
    found
}

fn factorial(n: usize) -> usize {
    (1..=n).product()
}

#[test]
fn two_cells_summing_to_five() {
    let found = combinations(2, 5);
    assert_eq!(as_sets(&found), vec![vec![1, 4], vec![2, 3]]);
    assert_eq!(found, vec![vec![4, 1], vec![3, 2], vec![2, 3], vec![1, 4]]);
}

#[test]
fn three_cells_summing_to_six() {
    let found = combinations(3, 6);
    assert_eq!(as_sets(&found), vec![vec![1, 2, 3]]);
    assert_eq!(
        found,
        vec![
            vec![3, 2, 1],
            vec![2, 3, 1],
            vec![3, 1, 2],
            vec![1, 3, 2],
            vec![2, 1, 3],
            vec![1, 2, 3],
        ]
    );
}

#[test]
fn no_cells_give_no_combinations() {
    for s in -50..=100 {
        assert!(combinations(0, s).is_empty());
    }
    assert!(combinations(0, i32::MIN).is_empty());
    assert!(combinations(0, i32::MAX).is_empty());
}

#[test]
fn one_cell_takes_the_sum_itself() {
    for s in 1..=9 {
        assert_eq!(combinations(1, s), vec![vec![s]]);
    }
    assert!(combinations(1, 0).is_empty());
    assert!(combinations(1, 10).is_empty());
    assert!(combinations(1, -3).is_empty());
}

#[test]
fn every_combination_has_distinct_digits_with_the_right_sum() {
    for n in 1..=5usize {
        for s in 0..=46 {
            for c in combinations(n, s) {
                assert_eq!(c.len(), n);
                assert!(c.iter().all(|d| (1..=9).contains(d)));
                assert_eq!(c.iter().sum::<i32>(), s);
                let mut sorted = c.clone();
                sorted.sort();
                sorted.dedup();
                assert_eq!(sorted.len(), n);
            }
        }
    }
}

#[test]
fn combinations_match_the_subsets_found_by_brute_force() {
    for n in 1..=5usize {
        for s in -3..=48 {
            let found = combinations(n, s);
            let subsets = subsets_by_brute_force(n, s);
            assert_eq!(as_sets(&found), subsets, "n = {}, s = {}", n, s);
            assert_eq!(found.len(), subsets.len() * factorial(n), "n = {}, s = {}", n, s);
        }
    }
}

#[test]
fn seven_cells_match_the_subsets_found_by_brute_force() {
    let found = combinations(7, 28);
    let subsets = subsets_by_brute_force(7, 28);
    assert_eq!(subsets, vec![vec![1, 2, 3, 4, 5, 6, 7]]);
    assert_eq!(as_sets(&found), subsets);
    assert_eq!(found.len(), factorial(7));
}

#[test]
fn combinations_come_in_ascending_order_from_the_last_digit() {
    for n in 1..=4usize {
        for s in 1..=30 {
            let found = combinations(n, s);
            for pair in found.windows(2) {
                let a: Vec<i32> = pair[0].iter().rev().cloned().collect();
                let b: Vec<i32> = pair[1].iter().rev().cloned().collect();
                assert!(a < b);
            }
        }
    }
}

#[test]
fn sums_out_of_reach_give_nothing() {
    assert!(combinations(2, 2).is_empty());
    assert!(combinations(2, 18).is_empty());
    assert!(combinations(3, 5).is_empty());
    assert!(combinations(3, 25).is_empty());
    assert!(combinations(5, 14).is_empty());
    assert!(combinations(5, 36).is_empty());
    assert!(combinations(4, i32::MAX).is_empty());
    assert!(combinations(4, i32::MIN).is_empty());
    assert!(combinations(5, -1).is_empty());
}

#[test]
fn the_greatest_and_least_sums_are_reached() {
    assert_eq!(combinations(2, 17), vec![vec![9, 8], vec![8, 9]]);
    assert_eq!(combinations(2, 3), vec![vec![2, 1], vec![1, 2]]);
    assert_eq!(as_sets(&combinations(3, 24)), vec![vec![7, 8, 9]]);
    assert_eq!(as_sets(&combinations(6, 21)), vec![vec![1, 2, 3, 4, 5, 6]]);
    assert_eq!(as_sets(&combinations(6, 39)), vec![vec![4, 5, 6, 7, 8, 9]]);
}

#[test]
fn more_than_nine_cells_cannot_be_filled() {
    for s in 40..=60 {
        assert!(combinations(10, s).is_empty());
        assert!(combinations(11, s).is_empty());
        assert!(combinations(20, s).is_empty());
    }
    assert!(combinations(usize::MAX, 45).is_empty());
}

#[test]
fn the_same_request_gives_the_same_list() {
    assert_eq!(combinations(4, 20), combinations(4, 20));
}

#[test]
fn remove_duplicates_keeps_the_vectors_without_a_repeat() {
    let kept = remove_duplicates(vec![
        vec![1, 2],
        vec![2, 2],
        vec![3, 1, 3],
        vec![],
        vec![7],
        vec![4, 5, 6, 4],
        vec![0, 0],
        vec![9, 8, 7],
    ]);
    assert_eq!(kept, vec![vec![1, 2], vec![], vec![7], vec![9, 8, 7]]);
}

#[test]
fn remove_duplicates_of_nothing_is_nothing() {
    assert!(remove_duplicates(Vec::new()).is_empty());
}

#[test]
fn combinations_all_fileds_leaves_the_area_alone() {
    let area = Area { fields: vec![vec![0, 0], vec![0, 1]], value: 5, combinations: vec![vec![1, 4]] };
    area.combinations_all_fileds();
    assert_eq!(area.fields, vec![vec![0, 0], vec![0, 1]]);
    assert_eq!(area.value, 5);
    assert_eq!(area.combinations, vec![vec![1, 4]]);
}
