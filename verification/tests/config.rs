use sum_sudoku::board::GameBoard;
use sum_sudoku::game_config::{
    parse_cell, parse_optional_ints, AreaConfig, GameBoardConfig, SudokuRowConfig,
};
use sum_sudoku::trace::{axis_range, trace_points};

#[test]
fn digits_are_read_as_numbers() {
    assert_eq!(parse_cell("1"), Some(1));
    assert_eq!(parse_cell("9"), Some(9));
    assert_eq!(parse_cell("0"), Some(0));
    assert_eq!(parse_cell("12"), Some(12));
    assert_eq!(parse_cell("007"), Some(7));
    assert_eq!(parse_cell("+5"), Some(5));
    assert_eq!(parse_cell("-5"), Some(-5));
    assert_eq!(parse_cell("-0"), Some(0));
}

#[test]
fn anything_else_is_a_blank_cell() {
    for text in [
        "", " ", "-", "+", "x", "_", "None", "1 ", " 1", "1.0", "1_000", "--1", "+-1", "1-", "0x10",
        "٣", "1e3", "١٢",
    ] {
        assert_eq!(parse_cell(text), None, "{:?}", text);
    }
}

#[test]
fn numbers_beyond_32_bits_are_blank_cells() {
    assert_eq!(parse_cell("2147483647"), Some(i32::MAX));
    assert_eq!(parse_cell("-2147483648"), Some(i32::MIN));
    assert_eq!(parse_cell("2147483648"), None);
    assert_eq!(parse_cell("-2147483649"), None);
    assert_eq!(parse_cell("99999999999999999999999999"), None);
    assert_eq!(parse_cell("-99999999999999999999999999"), None);
    assert_eq!(parse_cell("00000000000000000000000002147483647"), Some(i32::MAX));
}

#[test]
fn cells_are_read_as_the_standard_library_reads_numbers() {
    let mut texts: Vec<String> = Vec::new();
    let pieces = ["", "-", "+", "0", "1", "9", "21", "47", "4836", "48", " ", "a", "_"];
    for a in pieces {
        for b in pieces {
            for c in pieces {
                texts.push(format!("{}{}{}", a, b, c));
            }
        }
    }
    for v in [i32::MAX as i64 - 1, i32::MAX as i64, i32::MAX as i64 + 1, i32::MIN as i64 - 1] {
        texts.push(format!("{}", v));
        texts.push(format!("+{}", v));
    }
    for text in texts {
        assert_eq!(parse_cell(&text), text.parse::<i32>().ok(), "{:?}", text);
    }
}

#[test]
fn a_row_is_read_cell_by_cell() {
    let row: Vec<String> =
        ["5", "", "x", "3", "-", "10", "0", " ", "9"].iter().map(|s| s.to_string()).collect();
    assert_eq!(
        parse_optional_ints(&row),
        vec![Some(5), None, None, Some(3), None, Some(10), Some(0), None, Some(9)]
    );
    assert_eq!(parse_optional_ints(&Vec::new()), Vec::<Option<i32>>::new());
}

#[test]
fn a_puzzle_read_from_text_makes_a_board() {
    let rows = ["5 3 . . 7 . . . .", ". . . 1 9 5 . . .", ". 9 8 . . . . 6 ."];
    let config = GameBoardConfig {
        sudoku: rows
            .iter()
            .map(|row| SudokuRowConfig {
                row: parse_optional_ints(&row.split(' ').map(|s| s.to_string()).collect()),
            })
            .collect(),
        area: vec![AreaConfig { fields: vec![vec![0, 2], vec![0, 3]], value: 10 }],
    };
    let board = GameBoard::new(&config);
    assert_eq!(board.sudoku.cells[0], [5, 3, 0, 0, 7, 0, 0, 0, 0]);
    assert_eq!(board.sudoku.cells[1], [0, 0, 0, 1, 9, 5, 0, 0, 0]);
    assert_eq!(board.sudoku.cells[2], [0, 9, 8, 0, 0, 0, 0, 6, 0]);
    assert_eq!(board.sudoku.cells[3], [0; 9]);
}

#[test]
fn the_axis_covers_the_least_and_the_greatest_value() {
    assert_eq!(axis_range(&vec![3, -1, 4, 1, -5, 9, 2, 6]), Some((-5, 9)));
    assert_eq!(axis_range(&vec![7]), Some((7, 7)));
    assert_eq!(axis_range(&vec![2, 2, 2]), Some((2, 2)));
    assert_eq!(axis_range(&vec![i32::MAX, i32::MIN]), Some((i32::MIN, i32::MAX)));
    assert_eq!(axis_range(&vec![1, 2, 3]), Some((1, 3)));
    assert_eq!(axis_range(&vec![3, 2, 1]), Some((1, 3)));
}

#[test]
fn no_values_need_no_axis() {
    assert_eq!(axis_range(&Vec::new()), None);
}

#[test]
fn the_trace_pairs_numbers_with_energies() {
    assert!(trace_points(&vec![], &vec![]).is_empty());
    assert_eq!(trace_points(&vec![0, 1, 2], &vec![5, 3, 4]), vec![(0, 5), (1, 3), (2, 4)]);
    assert_eq!(trace_points(&vec![0, 1, 2], &vec![5, 3]), vec![(0, 5), (1, 3)]);
    assert_eq!(trace_points(&vec![0], &vec![5, 3]), vec![(0, 5)]);
}
