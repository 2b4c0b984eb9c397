//! Coordinate text: column letters, row numbers, and the two position
//! notations.
//!
//! A horizontal play is written `<row><COLUMN>` (`9I`), a vertical play
//! `<COLUMN><row>` (`I9`), rows counted from one, columns lettered from
//! `A`.  Parsing accepts either form and rejects anything else.

use vstd::prelude::*;

use crate::matrix::Dim;

verus! {

/// A parsed coordinate: the lane and start of a placement.
#[derive(Clone, Copy, Debug, PartialEq, Eq, Structural)]
pub struct Coord {
    pub down: bool,
    pub lane: u8,
    pub idx: u8,
}

/// The letter of a column.
pub open spec fn column_letter(col: int) -> u8 {
    (65 + col) as u8
}

/// Decimal digits of `n` (for numbers up to two digits).
pub open spec fn dec_digits(n: int) -> Seq<u8> {
    if n < 10 {
        seq![(48 + n) as u8]
    } else {
        seq![(48 + n / 10) as u8, (48 + n % 10) as u8]
    }
}

/// Is this byte an ASCII digit?
pub open spec fn is_digit(b: u8) -> bool {
    48 <= b <= 57
}

/// Is this byte an ASCII letter?
pub open spec fn is_letter(b: u8) -> bool {
    (65 <= b <= 90) || (97 <= b <= 122)
}

/// Column index of a letter, case blind.
pub open spec fn letter_value(b: u8) -> int {
    if 65 <= b <= 90 {
        b - 65
    } else {
        b - 97
    }
}

/// Value of a run of digits, `-1` when empty, too long or too large to be
/// a row of any supported board.
pub open spec fn digits_value(s: Seq<u8>) -> int
    decreases s.len(),
{
    if s.len() == 0 || s.len() > 2 {
        -1
    } else if s.len() == 1 {
        if is_digit(s[0]) {
            s[0] - 48
        } else {
            -1
        }
    } else {
        if is_digit(s[0]) && is_digit(s[1]) {
            (s[0] - 48) * 10 + (s[1] - 48)
        } else {
            -1
        }
    }
}

/// Number of leading digits.
pub open spec fn digit_run(s: Seq<u8>, i: int) -> int
    decreases s.len() - i,
{
    if i < 0 || i >= s.len() || !is_digit(s[i]) {
        i
    } else {
        digit_run(s, i + 1)
    }
}

/// Number of letters after `i`.
pub open spec fn letter_run(s: Seq<u8>, i: int) -> int
    decreases s.len() - i,
{
    if i < 0 || i >= s.len() || !is_letter(s[i]) {
        i
    } else {
        letter_run(s, i + 1)
    }
}

/// What a coordinate token denotes: digits-then-letter is a horizontal
/// start, letter-then-digits a vertical one; single letters only, and
/// every part must fit the board.
pub open spec fn coord_spec(s: Seq<u8>, dim: Dim) -> Option<Coord> {
    let l1 = digit_run(s, 0);
    let l2 = letter_run(s, l1);
    if l2 == l1 {
        None
    } else if l2 - l1 != 1 {
        // multi-letter columns name no column of a board this size
        None
    } else if l1 != 0 && l2 != s.len() {
        None
    } else {
        let col = letter_value(s[l1]);
        if col >= dim.cols {
            None
        } else if l1 != 0 {
            // row then column: a horizontal coordinate
            let row = digits_value(s.subrange(0, l1)) - 1;
            if 0 <= row < dim.rows {
                Some(Coord { down: false, lane: row as u8, idx: col as u8 })
            } else {
                None
            }
        } else {
            // column then row: a vertical coordinate
            let l3 = digit_run(s, l2);
            if l3 != s.len() {
                None
            } else {
                let row = digits_value(s.subrange(l2, l3)) - 1;
                if 0 <= row < dim.rows {
                    Some(Coord { down: true, lane: col as u8, idx: row as u8 })
                } else {
                    None
                }
            }
        }
    }
}

fn is_digit_exec(b: u8) -> (r: bool)
    ensures
        r == is_digit(b),
{
    48 <= b && b <= 57
}

fn is_letter_exec(b: u8) -> (r: bool)
    ensures
        r == is_letter(b),
{
    (65 <= b && b <= 90) || (97 <= b && b <= 122)
}

/// Length of the digit run from `i`.
fn scan_digits(s: &[u8], i: usize) -> (r: usize)
    requires
        i <= s@.len(),
    ensures
        i <= r <= s@.len(),
        r as int == digit_run(s@, i as int),
        forall|k: int| i <= k < r ==> is_digit(s@[k]),
{
    let mut j = i;
    while j < s.len() && is_digit_exec(s[j])
        invariant
            i <= j <= s@.len(),
            digit_run(s@, i as int) == digit_run(s@, j as int),
            forall|k: int| i <= k < j ==> is_digit(s@[k]),
        decreases s@.len() - j,
    {
        j += 1;
    }
    j
}

/// Length of the letter run from `i`.
fn scan_letters(s: &[u8], i: usize) -> (r: usize)
    requires
        i <= s@.len(),
    ensures
        i <= r <= s@.len(),
        r as int == letter_run(s@, i as int),
        forall|k: int| i <= k < r ==> is_letter(s@[k]),
{
    let mut j = i;
    while j < s.len() && is_letter_exec(s[j])
        invariant
            i <= j <= s@.len(),
            letter_run(s@, i as int) == letter_run(s@, j as int),
            forall|k: int| i <= k < j ==> is_letter(s@[k]),
        decreases s@.len() - j,
    {
        j += 1;
    }
    j
}

/// Value of the digits `s[a..b)`.
fn digits_value_exec(s: &[u8], a: usize, b: usize) -> (r: i32)
    requires
        a <= b <= s@.len(),
        forall|k: int| a <= k < b ==> is_digit(s@[k]),
    ensures
        r as int == digits_value(s@.subrange(a as int, b as int)),
{
    let n = b - a;
    if n == 0 || n > 2 {
        return -1;
    }
    if n == 1 {
        assert(s@.subrange(a as int, b as int)[0] == s@[a as int]);
        (s[a] - 48) as i32
    } else {
        assert(s@.subrange(a as int, b as int)[0] == s@[a as int]);
        assert(s@.subrange(a as int, b as int)[1] == s@[a as int + 1]);
        ((s[a] - 48) as i32) * 10 + ((s[a + 1] - 48) as i32)
    }
}

/// Read a coordinate token against the board's dimensions.
pub fn parse_coord_token(s: &[u8], dim: Dim) -> (r: Option<Coord>)
    requires
        dim.wf(),
    ensures
        r == coord_spec(s@, dim),
{
    let l1 = scan_digits(s, 0);
    let l2 = scan_letters(s, l1);
    if l2 == l1 {
        return None;
    }
    if l2 - l1 != 1 {
        return None;
    }
    if l1 != 0 && l2 != s.len() {
        return None;
    }
    let b = s[l1];
    let col: u8 = if 65 <= b && b <= 90 {
        b - 65
    } else {
        b - 97
    };
    assert(col as int == letter_value(s@[l1 as int]));
    if col >= dim.cols {
        return None;
    }
    if l1 != 0 {
        let row = digits_value_exec(s, 0, l1) - 1;
        if 0 <= row && row < dim.rows as i32 {
            Some(Coord { down: false, lane: row as u8, idx: col })
        } else {
            None
        }
    } else {
        let l3 = scan_digits(s, l2);
        if l3 != s.len() {
            return None;
        }
        let row = digits_value_exec(s, l2, l3) - 1;
        if 0 <= row && row < dim.rows as i32 {
            Some(Coord { down: true, lane: col, idx: row as u8 })
        } else {
            None
        }
    }
}

/// The position text of a placement: `<row><COLUMN>` across,
/// `<COLUMN><row>` down, the row counted from one.
pub open spec fn position_spec(down: bool, lane: int, idx: int) -> Seq<u8> {
    if down {
        seq![column_letter(lane)] + dec_digits(idx + 1)
    } else {
        dec_digits(lane + 1) + seq![column_letter(idx)]
    }
}

/// Write the position text of a placement.
pub fn fmt_position(down: bool, lane: u8, idx: u8) -> (r: Vec<u8>)
    requires
        lane < 26,
        idx < 26,
        down ==> idx < 99,
        !down ==> lane < 99,
    ensures
        r@ == position_spec(down, lane as int, idx as int),
{
    let mut out: Vec<u8> = Vec::new();
    if down {
        out.push(65 + lane);
        push_decimal(&mut out, idx + 1);
        proof {
            assert(out@ =~= position_spec(true, lane as int, idx as int));
        }
    } else {
        push_decimal(&mut out, lane + 1);
        out.push(65 + idx);
        proof {
            assert(out@ =~= position_spec(false, lane as int, idx as int));
        }
    }
    out
}

/// Append the decimal digits of `n`.
fn push_decimal(out: &mut Vec<u8>, n: u8)
    requires
        n <= 99,
    ensures
        final(out)@ == old(out)@ + dec_digits(n as int),
{
    if n < 10 {
        out.push(48 + n);
        proof {
            assert(out@ =~= old(out)@ + dec_digits(n as int));
        }
    } else {
        out.push(48 + n / 10);
        out.push(48 + n % 10);
        proof {
            assert(out@ =~= old(out)@ + dec_digits(n as int));
        }
    }
}

} // verus!
