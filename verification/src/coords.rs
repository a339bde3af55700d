//! Conversion from the board's two-character coordinate labels — a
//! column letter `a`..`h` (either case) followed by a row digit `1`..`8`
//! — to the linear row-major cell index.

use vstd::prelude::*;
use vstd::pervasive::unreached;

verus! {

/// Column named by a coordinate letter, or -1 for any other character.
pub open spec fn col_of_letter(c: char) -> int {
    if c == 'a' || c == 'A' {
        0
    } else if c == 'b' || c == 'B' {
        1
    } else if c == 'c' || c == 'C' {
        2
    } else if c == 'd' || c == 'D' {
        3
    } else if c == 'e' || c == 'E' {
        4
    } else if c == 'f' || c == 'F' {
        5
    } else if c == 'g' || c == 'G' {
        6
    } else if c == 'h' || c == 'H' {
        7
    } else {
        -1
    }
}

/// Row named by a coordinate digit, or -1 for any other character.
pub open spec fn row_of_digit(c: char) -> int {
    if c == '1' {
        0
    } else if c == '2' {
        1
    } else if c == '3' {
        2
    } else if c == '4' {
        3
    } else if c == '5' {
        4
    } else if c == '6' {
        5
    } else if c == '7' {
        6
    } else if c == '8' {
        7
    } else {
        -1
    }
}

/// Convert a coordinate string such as `"d3"` — column letter first,
/// then row digit — into the linear index of that cell, row-major with
/// 8 cells to a row.
pub fn convert_2d(s: &str) -> (r: u8)
    requires
        s@.len() >= 2,
        col_of_letter(s@[0]) >= 0,
        row_of_digit(s@[1]) >= 0,
    ensures
        r as int == row_of_digit(s@[1]) * 8 + col_of_letter(s@[0]),
        r < 64,
{
    let letter = s.get_char(0);
    let num = s.get_char(1);
    let col: u8 = if letter == 'a' || letter == 'A' {
        0
    } else if letter == 'b' || letter == 'B' {
        1
    } else if letter == 'c' || letter == 'C' {
        2
    } else if letter == 'd' || letter == 'D' {
        3
    } else if letter == 'e' || letter == 'E' {
        4
    } else if letter == 'f' || letter == 'F' {
        5
    } else if letter == 'g' || letter == 'G' {
        6
    } else if letter == 'h' || letter == 'H' {
        7
    } else {
        unreached()
    };
    let row: u8 = if num == '1' {
        0
    } else if num == '2' {
        1
    } else if num == '3' {
        2
    } else if num == '4' {
        3
    } else if num == '5' {
        4
    } else if num == '6' {
        5
    } else if num == '7' {
        6
    } else if num == '8' {
        7
    } else {
        unreached()
    };
    row * 8 + col
}

} // verus!
