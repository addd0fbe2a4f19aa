//! The text format of an initial state:
//!
//! ```text
//! <width> <height>
//! <cell_count>
//! <x> <y>        (cell_count lines)
//! ```
//!
//! Integers are decimal; a coordinate or a dimension may carry a `+` or `-`
//! sign and must fit in an `i32`; the count carries no sign and must fit in a
//! `u32`. Lines end in `\n` or `\r\n`. Text after the declared cells is left
//! over, not read.

use vstd::prelude::*;
use vstd::string::StrSliceExecFns;

use crate::board::{normalise, Board, Pos};

verus! {

/// Why a description could not be read.
#[derive(Debug, Clone, Copy, PartialEq, Eq, Structural)]
pub enum ParseError {
    /// The first line is not two integers, or a dimension is below 1.
    Dimensions,
    /// The second line is not a cell count.
    CellCount,
    /// The cell line with this index (from 0) is malformed or missing.
    Cell(u32),
}

pub open spec fn is_digit(c: char) -> bool {
    48 <= (c as u32) <= 57
}

pub open spec fn digit_value(c: char) -> int {
    (c as u32) as int - 48
}

/// The length of the run of decimal digits that starts at `i`.
pub open spec fn digits_len(s: Seq<char>, i: int) -> nat
    decreases s.len() - i,
{
    if 0 <= i < s.len() && is_digit(s[i]) {
        1 + digits_len(s, i + 1)
    } else {
        0
    }
}

/// The number written by the digits `s[a..b]`.
pub open spec fn digits_value(s: Seq<char>, a: int, b: int) -> int
    decreases b - a,
{
    if b <= a {
        0
    } else {
        10 * digits_value(s, a, b - 1) + digit_value(s[b - 1])
    }
}

/// A signed integer at `i`: an optional `+` or `-`, then at least one digit,
/// all digits read, the value within `i32`. Gives the value and where it ends.
pub open spec fn int_at(s: Seq<char>, i: int) -> Option<(i32, int)> {
    let neg = 0 <= i < s.len() && s[i] == '-';
    let signed = neg || (0 <= i < s.len() && s[i] == '+');
    let start = if signed { i + 1 } else { i };
    let n = digits_len(s, start);
    let mag = digits_value(s, start, start + n);
    let v = if neg { -mag } else { mag };
    if n == 0 || v < i32::MIN || v > i32::MAX {
        None
    } else {
        Some((v as i32, start + n))
    }
}

/// An unsigned integer at `i`: at least one digit, all digits read, the value
/// within `u32`.
pub open spec fn uint_at(s: Seq<char>, i: int) -> Option<(u32, int)> {
    let n = digits_len(s, i);
    let v = digits_value(s, i, i + n);
    if n == 0 || v > u32::MAX {
        None
    } else {
        Some((v as u32, i + n))
    }
}

/// A line end at `i`, `\n` or `\r\n`: where the next line starts.
pub open spec fn eol_at(s: Seq<char>, i: int) -> Option<int> {
    if 0 <= i < s.len() && s[i] == '\n' {
        Some(i + 1)
    } else if 0 <= i && i + 1 < s.len() && s[i] == '\r' && s[i + 1] == '\n' {
        Some(i + 2)
    } else {
        None
    }
}

/// A line of two signed integers split by one space, at `i`.
pub open spec fn pair_line_at(s: Seq<char>, i: int) -> Option<(Pos, int)> {
    match int_at(s, i) {
        Some((a, j)) => if 0 <= j < s.len() && s[j] == ' ' {
            match int_at(s, j + 1) {
                Some((b, k)) => match eol_at(s, k) {
                    Some(e) => Some(((a, b), e)),
                    None => None,
                },
                None => None,
            }
        } else {
            None
        },
        None => None,
    }
}

/// A line of one unsigned integer, at `i`.
pub open spec fn count_line_at(s: Seq<char>, i: int) -> Option<(u32, int)> {
    match uint_at(s, i) {
        Some((n, j)) => match eol_at(s, j) {
            Some(e) => Some((n, e)),
            None => None,
        },
        None => None,
    }
}

/// The first `m` cell lines from `i`: the cells and where they end, or the
/// index of the first line that is not a cell line.
pub open spec fn cell_lines(s: Seq<char>, i: int, m: nat) -> Result<(Seq<Pos>, int), nat>
    decreases m,
{
    if m == 0 {
        Ok((Seq::empty(), i))
    } else {
        match cell_lines(s, i, (m - 1) as nat) {
            Ok((cs, j)) => match pair_line_at(s, j) {
                Some((p, k)) => Ok((cs.push(p), k)),
                None => Err((m - 1) as nat),
            },
            Err(e) => Err(e),
        }
    }
}

/// The description held by `s`: width, height, the cells as written, and
/// where the text that follows them starts.
pub open spec fn description(s: Seq<char>) -> Result<(i32, i32, Seq<Pos>, int), ParseError> {
    match pair_line_at(s, 0) {
        Some((dims, i)) => if dims.0 < 1 || dims.1 < 1 {
            Err(ParseError::Dimensions)
        } else {
            match count_line_at(s, i) {
                Some((n, j)) => match cell_lines(s, j, n as nat) {
                    Ok((cs, k)) => Ok((dims.0, dims.1, cs, k)),
                    Err(e) => Err(ParseError::Cell(e as u32)),
                },
                None => Err(ParseError::CellCount),
            }
        },
        None => Err(ParseError::Dimensions),
    }
}

proof fn lemma_digits_value_nonneg(s: Seq<char>, a: int, b: int)
    requires
        forall|k: int| a <= k < b ==> #[trigger] is_digit(s[k]),
    ensures
        digits_value(s, a, b) >= 0,
    decreases b - a,
{
    if b > a {
        lemma_digits_value_nonneg(s, a, b - 1);
        assert(is_digit(s[b - 1]));
    }
}

/// Once a cell line fails, reading more lines fails at that same line.
proof fn lemma_cell_lines_error_stays(s: Seq<char>, i: int, a: nat, b: nat)
    requires
        a <= b,
        cell_lines(s, i, a) is Err,
    ensures
        cell_lines(s, i, b) == cell_lines(s, i, a),
    decreases b - a,
{
    if b > a {
        lemma_cell_lines_error_stays(s, i, a, (b - 1) as nat);
    }
}

/// Reads the run of digits at `start`. Gives its value where that is at most
/// `limit`, where the run ends, and whether the value went over `limit`.
fn scan_digits(s: &Vec<char>, start: usize, limit: u64) -> (r: (u64, usize, bool))
    requires
        start <= s@.len(),
        limit <= u32::MAX + 1,
    ensures
        r.1 == start + digits_len(s@, start as int),
        r.1 <= s@.len(),
        r.2 == (digits_value(s@, start as int, r.1 as int) > limit),
        !r.2 ==> r.0 == digits_value(s@, start as int, r.1 as int),
{
    let mut j: usize = start;
    let mut acc: u64 = 0;
    let mut over = false;
    while j < s.len() && (s[j] as u32) >= 48 && (s[j] as u32) <= 57
        invariant
            start <= j <= s@.len(),
            limit <= u32::MAX + 1,
            forall|k: int| start <= k < j ==> #[trigger] is_digit(s@[k]),
            digits_len(s@, start as int) == (j - start) + digits_len(s@, j as int),
            over == (digits_value(s@, start as int, j as int) > limit),
            !over ==> acc == digits_value(s@, start as int, j as int),
        decreases s@.len() - j,
    {
        let ghost before = digits_value(s@, start as int, j as int);
        let d = (s[j] as u32 - 48) as u64;
        proof {
            lemma_digits_value_nonneg(s@, start as int, j as int);
            assert(digits_value(s@, start as int, j + 1) == 10 * before + d);
        }
        if !over {
            acc = acc * 10 + d;
            if acc > limit {
                over = true;
            }
        }
        j += 1;
    }
    (acc, j, over)
}

/// A signed integer at `i`, as `int_at` reads it.
fn parse_int(s: &Vec<char>, i: usize) -> (r: Option<(i32, usize)>)
    requires
        i <= s@.len(),
    ensures
        match int_at(s@, i as int) {
            Some((v, e)) => r matches Some((rv, re)) && rv == v && re == e && i <= e <= s@.len(),
            None => r is None,
        },
{
    let neg = i < s.len() && s[i] == '-';
    let signed = neg || (i < s.len() && s[i] == '+');
    let start = if signed { i + 1 } else { i };
    let limit: u64 = if neg { 2147483648 } else { 2147483647 };
    let (mag, end, over) = scan_digits(s, start, limit);
    if end == start || over {
        return None;
    }
    let v: i32 = if neg { (0 - (mag as i64)) as i32 } else { mag as i32 };
    Some((v, end))
}

/// An unsigned integer at `i`, as `uint_at` reads it.
fn parse_uint(s: &Vec<char>, i: usize) -> (r: Option<(u32, usize)>)
    requires
        i <= s@.len(),
    ensures
        match uint_at(s@, i as int) {
            Some((v, e)) => r matches Some((rv, re)) && rv == v && re == e && i <= e <= s@.len(),
            None => r is None,
        },
{
    let (v, end, over) = scan_digits(s, i, 4294967295);
    if end == i || over {
        return None;
    }
    Some((v as u32, end))
}

/// A line end at `i`, as `eol_at` reads it.
fn parse_eol(s: &Vec<char>, i: usize) -> (r: Option<usize>)
    requires
        i <= s@.len(),
    ensures
        match eol_at(s@, i as int) {
            Some(e) => r matches Some(re) && re == e && i <= e <= s@.len(),
            None => r is None,
        },
{
    if i < s.len() && s[i] == '\n' {
        Some(i + 1)
    } else if i < s.len() && i + 1 < s.len() && s[i] == '\r' && s[i + 1] == '\n' {
        Some(i + 2)
    } else {
        None
    }
}

/// A line of two integers at `i`, as `pair_line_at` reads it.
fn parse_integer_pair(s: &Vec<char>, i: usize) -> (r: Option<(Pos, usize)>)
    requires
        i <= s@.len(),
    ensures
        match pair_line_at(s@, i as int) {
            Some((p, e)) => r matches Some((rp, re)) && rp == p && re == e && i <= e <= s@.len(),
            None => r is None,
        },
{
    let (a, j) = match parse_int(s, i) {
        Some(x) => x,
        None => return None,
    };
    if !(j < s.len() && s[j] == ' ') {
        return None;
    }
    let (b, k) = match parse_int(s, j + 1) {
        Some(x) => x,
        None => return None,
    };
    match parse_eol(s, k) {
        Some(e) => Some(((a, b), e)),
        None => None,
    }
}

/// A line of one unsigned integer at `i`, as `count_line_at` reads it.
fn parse_integer_single(s: &Vec<char>, i: usize) -> (r: Option<(u32, usize)>)
    requires
        i <= s@.len(),
    ensures
        match count_line_at(s@, i as int) {
            Some((n, e)) => r matches Some((rn, re)) && rn == n && re == e && i <= e <= s@.len(),
            None => r is None,
        },
{
    match parse_uint(s, i) {
        Some((n, j)) => match parse_eol(s, j) {
            Some(e) => Some((n, e)),
            None => None,
        },
        None => None,
    }
}

/// The characters of `input`, one by one.
fn chars_of(input: &str) -> (r: Vec<char>)
    ensures
        r@ == input@,
{
    let n = input.unicode_len();
    let mut out: Vec<char> = Vec::new();
    let mut i: usize = 0;
    while i < n
        invariant
            n == input@.len(),
            0 <= i <= n,
            out@ == input@.take(i as int),
        decreases n - i,
    {
        out.push(input.get_char(i));
        assert(out@ =~= input@.take(i + 1));
        i += 1;
    }
    assert(out@ =~= input@);
    out
}

/// Reads a description of an initial state from `input`. Gives the text that
/// follows the declared cells, and the board, whose cells are those written,
/// wrapped onto the grid and each kept once.
pub fn parse_input_file(input: &str) -> (r: Result<(&str, Board), ParseError>)
    ensures
        match description(input@) {
            Ok((w, h, cells, end)) => r matches Ok((rest, b)) && rest@ == input@.subrange(
                end,
                input@.len() as int,
            ) && b.wf() && b.spec_width() == w && b.spec_height() == h && b.spec_cells()
                == normalise(w as int, h as int, cells),
            Err(e) => r == Err::<(&str, Board), ParseError>(e),
        },
{
    let s = chars_of(input);
    let (dims, i) = match parse_integer_pair(&s, 0) {
        Some(x) => x,
        None => return Err(ParseError::Dimensions),
    };
    if dims.0 < 1 || dims.1 < 1 {
        return Err(ParseError::Dimensions);
    }
    let (n, j) = match parse_integer_single(&s, i) {
        Some(x) => x,
        None => return Err(ParseError::CellCount),
    };
    let mut cells: Vec<Pos> = Vec::new();
    let mut pos: usize = j;
    let mut m: u32 = 0;
    while m < n
        invariant
            s@ == input@,
            pair_line_at(s@, 0) == Some((dims, i as int)),
            1 <= dims.0,
            1 <= dims.1,
            count_line_at(s@, i as int) == Some((n, j as int)),
            0 <= m <= n,
            j <= pos <= s@.len(),
            cell_lines(s@, j as int, m as nat) == Ok::<(Seq<Pos>, int), nat>((cells@, pos as int)),
        decreases n - m,
    {
        match parse_integer_pair(&s, pos) {
            Some((p, e)) => {
                cells.push(p);
                pos = e;
            },
            None => {
                proof {
                    assert(cell_lines(s@, j as int, (m + 1) as nat) == Err::<(Seq<Pos>, int), nat>(
                        m as nat,
                    ));
                    lemma_cell_lines_error_stays(s@, j as int, (m + 1) as nat, n as nat);
                }
                return Err(ParseError::Cell(m));
            },
        }
        m += 1;
    }
    let board = Board::new(dims.0, dims.1, &cells);
    let rest = input.substring_char(pos, s.len());
    Ok((rest, board))
}

} // verus!
