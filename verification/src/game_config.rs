//! The puzzle as it is handed in, before a board is made of it.

use vstd::prelude::*;

verus! {

/// A puzzle: the rows of the board and the areas with their sums.
#[derive(Debug)]
pub struct GameBoardConfig {
    pub sudoku: Vec<SudokuRowConfig>,
    pub area: Vec<AreaConfig>,
}

/// One row of the board. `None` stands for a blank cell.
#[derive(Debug)]
pub struct SudokuRowConfig {
    pub row: Vec<Option<i32>>,
}

/// One area: its cells, each as a `[row, column]` pair, and the sum that
/// they must reach.
#[derive(Debug)]
pub struct AreaConfig {
    pub fields: Vec<Vec<i32>>,
    pub value: i32,
}

/// The character is one of the digits `0` to `9`.
pub open spec fn is_digit_char(c: char) -> bool {
    '0' <= c <= '9'
}

/// Every character of `text` is a digit.
pub open spec fn all_digit_chars(text: Seq<char>) -> bool {
    forall|i: int| 0 <= i < text.len() ==> is_digit_char(#[trigger] text[i])
}

/// The number that a sequence of digits writes in base ten.
pub open spec fn decimal_value(digits: Seq<char>) -> int
    decreases digits.len(),
{
    if digits.len() == 0 {
        0
    } else {
        10 * decimal_value(digits.drop_last()) + (digits.last() as int - '0' as int)
    }
}

/// The text starts with a sign.
pub open spec fn has_sign(text: Seq<char>) -> bool {
    text.len() > 0 && (text[0] == '-' || text[0] == '+')
}

/// What a cell of the puzzle holds when it is written as `text`: the number,
/// if the text is a whole number in base ten that fits in 32 bits (one digit
/// or more, with `+` or `-` before them or without a sign, and nothing else),
/// and nothing if it is anything else.
pub open spec fn parsed_cell(text: Seq<char>) -> Option<i32> {
    let digits = if has_sign(text) {
        text.skip(1)
    } else {
        text
    };
    let value = if has_sign(text) && text[0] == '-' {
        -decimal_value(digits)
    } else {
        decimal_value(digits)
    };
    if digits.len() > 0 && all_digit_chars(digits) && i32::MIN <= value <= i32::MAX {
        Some(value as i32)
    } else {
        None
    }
}

/// A number in base ten is at least as large as what its first digits write.
proof fn lemma_decimal_value_grows(digits: Seq<char>, k: int)
    requires
        0 <= k <= digits.len(),
        all_digit_chars(digits),
    ensures
        0 <= decimal_value(digits.take(k)) <= decimal_value(digits),
    decreases digits.len() - k,
{
    if k == digits.len() {
        assert(digits.take(k) =~= digits);
        lemma_decimal_value_positive(digits);
    } else {
        lemma_decimal_value_grows(digits, k + 1);
        assert(digits.take(k + 1).drop_last() =~= digits.take(k));
        assert(is_digit_char(digits[k]));
        assert(digits.take(k + 1).last() == digits[k]);
        lemma_decimal_value_positive(digits.take(k));
    }
}

/// A sequence of digits writes no negative number.
proof fn lemma_decimal_value_positive(digits: Seq<char>)
    requires
        all_digit_chars(digits),
    ensures
        0 <= decimal_value(digits),
    decreases digits.len(),
{
    if digits.len() > 0 {
        assert forall|i: int| 0 <= i < digits.drop_last().len() implies is_digit_char(
            #[trigger] digits.drop_last()[i],
        ) by {
            assert(digits.drop_last()[i] == digits[i]);
        }
        lemma_decimal_value_positive(digits.drop_last());
        assert(is_digit_char(digits[digits.len() - 1]));
    }
}

/// Reads one cell of the puzzle: the number that `text` writes, or `None`
/// for a blank cell, which is any text that is not a whole number.
///
/// A number is one digit or more, with `+` or `-` before them or without a
/// sign; blanks, other characters or a number too large for 32 bits make the
/// text a blank cell.
pub fn parse_cell(text: &str) -> (cell: Option<i32>)
    ensures
        cell == parsed_cell(text@),
{
    broadcast use vstd::string::group_string_axioms;

    let mut negative = false;
    let mut signed = false;
    let mut first = true;
    let mut any_digit = false;
    let ghost mut count: int = 0;
    let mut value: i64 = 0;
    let ghost digits = if has_sign(text@) {
        text@.skip(1)
    } else {
        text@
    };
    for c in it: text.chars()
        invariant
            it.seq() == text@,
            digits == if has_sign(text@) {
                text@.skip(1)
            } else {
                text@
            },
            first == (it.index() == 0),
            signed == (it.index() > 0 && has_sign(text@)),
            negative == (signed && text@[0] == '-'),
            count == it.index() - if signed {
                1int
            } else {
                0
            },
            0 <= count <= digits.len(),
            any_digit == (count > 0),
            all_digit_chars(digits.take(count)),
            value == decimal_value(digits.take(count)),
            0 <= value <= 0x8000_0000,
    {
        if first && (c == '-' || c == '+') {
            signed = true;
            negative = c == '-';
            assert(digits.take(0) =~= Seq::<char>::empty());
        } else if '0' <= c && c <= '9' {
            proof {
                assert(digits[count] == c);
                assert(digits.take(count + 1).drop_last() =~= digits.take(count));
                assert(digits.take(count + 1).last() == c);
                count = count + 1;
            }
            value = value * 10 + (c as i64 - '0' as i64);
            any_digit = true;
            if value > 0x8000_0000 {
                proof {
                    if all_digit_chars(digits) {
                        lemma_decimal_value_grows(digits, count);
                    }
                }
                return None;
            }
        } else {
            proof {
                assert(digits[count] == c);
                assert(!is_digit_char(digits[count]));
            }
            return None;
        }
        first = false;
    }
    assert(digits.take(count) =~= digits);
    if !any_digit {
        return None;
    }
    if negative {
        Some((-value) as i32)
    } else if value <= 0x7fff_ffff {
        Some(value as i32)
    } else {
        None
    }
}

/// Reads the cells of one row of the puzzle, each as [`parse_cell`] reads it.
pub fn parse_optional_ints(vec_of_strings: &Vec<String>) -> (parsed: Vec<Option<i32>>)
    ensures
        parsed@.len() == vec_of_strings@.len(),
        forall|i: int|
            0 <= i < parsed@.len() ==> #[trigger] parsed@[i] == parsed_cell(vec_of_strings@[i]@),
{
    let mut parsed: Vec<Option<i32>> = Vec::new();
    let mut i: usize = 0;
    while i < vec_of_strings.len()
        invariant
            i <= vec_of_strings@.len(),
            parsed@.len() == i,
            forall|k: int|
                0 <= k < i ==> #[trigger] parsed@[k] == parsed_cell(vec_of_strings@[k]@),
        decreases vec_of_strings@.len() - i,
    {
        parsed.push(parse_cell(vec_of_strings[i].as_str()));
        i += 1;
    }
    parsed
}

} // verus!
