//! Algebraic notation: a cell is written as a column letter followed by a row
//! number, and a wall as a cell followed by `h` or `v`.

use vstd::prelude::*;
use vstd::string::*;

verus! {

/// A cell of the board: row, then column, both counted from zero at the top
/// left.
pub type Coord = (usize, usize);

/// The largest board on which every cell is written with two characters.
pub const MAX_SIZE: usize = 9;

/// Why a piece of text could not be read.
#[derive(Debug, Clone, Copy, PartialEq, Eq, Structural)]
pub enum ParseError {
    /// A cell needs at least a letter and a digit.
    TooShort,
    /// The first character is not an ASCII letter.
    InvalidColumn,
    /// What follows the column letter is not a number.
    InvalidRow,
    /// The cell is not on the board.
    OutOfBounds,
    /// A wall does not end in `h` or `v`.
    InvalidOrientation,
    /// A serialized state does not have exactly five fields.
    FieldCount,
    /// The pawn field of a serialized state does not hold two cells.
    PawnField,
    /// The stock field of a serialized state does not hold two entries.
    StockField,
    /// The board size is outside `1..=MAX_SIZE`.
    BoardSize,
}

/// `cell` lies on a board with `size` rows and columns.
pub open spec fn on_board(size: nat, cell: Coord) -> bool {
    cell.0 < size && cell.1 < size
}

/// The letter of column `col`: `a` for the leftmost column.
pub open spec fn column_letter(col: nat) -> char {
    ('a' as nat + col) as char
}

/// The digit written for `n`, for `n` below ten.
pub open spec fn digit_char(n: nat) -> char {
    ('0' as nat + n) as char
}

/// How a cell is written on a board of `size` rows: the column letter, then
/// the rank, which counts rows from the bottom starting at one.
pub open spec fn cell_text(size: nat, cell: Coord) -> Seq<char> {
    seq![column_letter(cell.1 as nat), digit_char((size - cell.0) as nat)]
}

/// `c` is an ASCII letter.
pub open spec fn is_letter(c: char) -> bool {
    ('a' <= c && c <= 'z') || ('A' <= c && c <= 'Z')
}

/// `c` is an ASCII digit.
pub open spec fn is_digit(c: char) -> bool {
    '0' <= c && c <= '9'
}

/// The column that a letter stands for, whichever its case.
pub open spec fn letter_column(c: char) -> nat {
    if 'A' <= c && c <= 'Z' {
        (c as nat - 'A' as nat) as nat
    } else {
        (c as nat - 'a' as nat) as nat
    }
}

/// The number that a run of digits spells.
pub open spec fn digits_value(s: Seq<char>) -> nat
    decreases s.len(),
{
    if s.len() == 0 {
        0
    } else {
        10 * digits_value(s.drop_last()) + (s.last() as nat - '0' as nat) as nat
    }
}

/// The digits of a number: at least one digit, after an optional plus sign.
pub open spec fn number_digits(s: Seq<char>) -> Seq<char> {
    if s.len() > 0 && s[0] == '+' {
        s.subrange(1, s.len() as int)
    } else {
        s
    }
}

/// `s` spells a number.
pub open spec fn is_number(s: Seq<char>) -> bool {
    let d = number_digits(s);
    d.len() > 0 && forall|i: int| 0 <= i < d.len() ==> is_digit(#[trigger] d[i])
}

/// `s` ends in a wall's orientation mark.
pub open spec fn ends_in_orientation(s: Seq<char>) -> bool {
    s.len() > 0 && (s.last() == 'h' || s.last() == 'v')
}

/// The part of `s` that names a cell: a text of three or more characters
/// that ends in an orientation mark is cut down to its first two.
pub open spec fn cell_part(s: Seq<char>) -> Seq<char> {
    if s.len() > 2 && ends_in_orientation(s) {
        s.subrange(0, 2)
    } else {
        s
    }
}

/// The cell that `s` names on a board of `size` rows, or why it names none.
pub open spec fn parse_cell(size: nat, s: Seq<char>) -> Result<Coord, ParseError> {
    let t = cell_part(s);
    if t.len() < 2 {
        Err(ParseError::TooShort)
    } else if !is_letter(t[0]) {
        Err(ParseError::InvalidColumn)
    } else if !is_number(t.subrange(1, t.len() as int)) {
        Err(ParseError::InvalidRow)
    } else {
        let rank = digits_value(number_digits(t.subrange(1, t.len() as int)));
        let col = letter_column(t[0]);
        if rank == 0 || rank > size || col >= size {
            Err(ParseError::OutOfBounds)
        } else {
            Ok(((size - rank) as usize, col as usize))
        }
    }
}

/// `String::push`: appends one character.
pub assume_specification[ String::push ](s: &mut String, c: char)
    ensures
        final(s)@ == old(s)@.push(c),
;

/// Writes a cell of a board of `size` rows.
pub fn write_cell(size: usize, cell: Coord) -> (text: String)
    requires
        size <= MAX_SIZE,
        on_board(size as nat, cell),
    ensures
        text@ == cell_text(size as nat, cell),
{
    let letter: char = (97u8 + cell.1 as u8) as char;
    let digit: char = (48u8 + (size - cell.0) as u8) as char;
    let mut text = String::new();
    text.push(letter);
    text.push(digit);
    assert(text@ =~= cell_text(size as nat, cell));
    text
}

/// The number `n` in decimal.
pub open spec fn decimal(n: nat) -> Seq<char>
    decreases n,
{
    if n < 10 {
        seq![digit_char(n)]
    } else {
        decimal(n / 10).push(digit_char(n % 10))
    }
}

/// Writes a number in decimal.
pub fn write_number(n: usize) -> (text: String)
    ensures
        text@ == decimal(n as nat),
    decreases n,
{
    if n < 10 {
        let mut text = String::new();
        text.push((48u8 + n as u8) as char);
        assert(text@ =~= decimal(n as nat));
        text
    } else {
        let mut text = write_number(n / 10);
        text.push((48u8 + (n % 10) as u8) as char);
        text
    }
}

/// Whether two texts hold the same characters.
pub fn same_text(a: &str, b: &str) -> (same: bool)
    ensures
        same == (a@ == b@),
{
    let n = a.unicode_len();
    if b.unicode_len() != n {
        return false;
    }
    let mut i: usize = 0;
    while i < n
        invariant
            i <= n,
            n == a@.len(),
            n == b@.len(),
            forall|j: int| 0 <= j < i ==> a@[j] == b@[j],
        decreases n - i,
    {
        if a.get_char(i) != b.get_char(i) {
            return false;
        }
        i = i + 1;
    }
    assert(a@ =~= b@);
    true
}

/// A wall lies along a row (`h`) or along a column (`v`).
#[derive(Debug, Clone, Copy, PartialEq, Eq, Structural)]
pub enum Orientation {
    Horizontal,
    Vertical,
}

impl Orientation {
    /// The mark that ends a wall's notation.
    pub open spec fn mark(self) -> char {
        match self {
            Orientation::Horizontal => 'h',
            Orientation::Vertical => 'v',
        }
    }
}

/// How a wall is written: its anchor cell, then its orientation mark.
pub open spec fn wall_text(size: nat, anchor: Coord, orientation: Orientation) -> Seq<char> {
    cell_text(size, anchor).push(orientation.mark())
}

/// The wall that `s` names, or why it names none. A wall is written with
/// exactly three characters.
pub open spec fn parse_wall(size: nat, s: Seq<char>) -> Result<(Coord, Orientation), ParseError> {
    if s.len() < 3 {
        Err(ParseError::TooShort)
    } else if s.len() != 3 || !(s[2] == 'h' || s[2] == 'v') {
        Err(ParseError::InvalidOrientation)
    } else {
        match parse_cell(size, s.subrange(0, 2)) {
            Err(e) => Err(e),
            Ok(anchor) => Ok(
                (
                    anchor,
                    if s[2] == 'h' {
                        Orientation::Horizontal
                    } else {
                        Orientation::Vertical
                    },
                ),
            ),
        }
    }
}

/// `s` is written like a wall: three characters, the last an orientation
/// mark. This is how the players tell a wall from a pawn move.
pub open spec fn looks_like_wall(s: Seq<char>) -> bool {
    s.len() == 3 && ends_in_orientation(s)
}

/// `value`, or `cap` when `value` is larger.
pub open spec fn capped(value: nat, cap: nat) -> nat {
    if value > cap {
        cap
    } else {
        value
    }
}

/// One more digit: ten times the number so far, plus the digit.
pub proof fn lemma_digits_value_push(s: Seq<char>, c: char)
    ensures
        digits_value(s.push(c)) == 10 * digits_value(s) + (c as nat - '0' as nat) as nat,
{
    assert(s.push(c).drop_last() =~= s);
}

/// Reads the characters `text[from..to]` as a run of digits. Returns nothing
/// when a character is not a digit; otherwise the number, or `cap` when the
/// number is larger than `cap`.
fn read_digits(text: &str, from: usize, to: usize, cap: usize) -> (value: Option<usize>)
    requires
        from <= to <= text@.len(),
        cap <= 1000,
    ensures
        value is Some <==> (forall|i: int| from <= i < to ==> is_digit(#[trigger] text@[i])),
        value is Some ==> value->0 == capped(digits_value(text@.subrange(from as int, to as int)), cap as nat),
{
    let mut acc: usize = 0;
    let mut i: usize = from;
    assert(text@.subrange(from as int, from as int) =~= Seq::<char>::empty());
    while i < to
        invariant
            from <= i <= to <= text@.len(),
            cap <= 1000,
            forall|j: int| from <= j < i ==> is_digit(#[trigger] text@[j]),
            acc == capped(digits_value(text@.subrange(from as int, i as int)), cap as nat),
        decreases to - i,
    {
        let c = text.get_char(i);
        if !('0' <= c && c <= '9') {
            return None;
        }
        let d: usize = (c as u8 - 48u8) as usize;
        proof {
            lemma_digits_value_push(text@.subrange(from as int, i as int), c);
            assert(text@.subrange(from as int, i as int).push(c) =~= text@.subrange(from as int, i + 1));
        }
        let next: usize = acc * 10 + d;
        acc = if next > cap { cap } else { next };
        i = i + 1;
    }
    Some(acc)
}

/// Reads a cell of a board of `size` rows.
pub fn read_cell(size: usize, text: &str) -> (cell: Result<Coord, ParseError>)
    requires
        size <= MAX_SIZE,
    ensures
        cell == parse_cell(size as nat, text@),
{
    let len = text.unicode_len();
    let mut end: usize = len;
    if len > 2 {
        let last = text.get_char(len - 1);
        if last == 'h' || last == 'v' {
            end = 2;
        }
    }
    let ghost part = cell_part(text@);
    assert(part =~= text@.subrange(0, end as int));
    if end < 2 {
        return Err(ParseError::TooShort);
    }
    let first = text.get_char(0);
    let upper = 'A' <= first && first <= 'Z';
    let lower = 'a' <= first && first <= 'z';
    if !upper && !lower {
        return Err(ParseError::InvalidColumn);
    }
    let start: usize = if text.get_char(1) == '+' { 2 } else { 1 };
    let ghost rest = part.subrange(1, part.len() as int);
    let ghost digits = number_digits(rest);
    assert(digits =~= text@.subrange(start as int, end as int));
    if start >= end {
        return Err(ParseError::InvalidRow);
    }
    match read_digits(text, start, end, size + 1) {
        None => {
            proof {
                let i = choose|i: int| start <= i < end && !is_digit(#[trigger] text@[i]);
                assert(digits[i - start] == text@[i]);
            }
            Err(ParseError::InvalidRow)
        },
        Some(rank) => {
            assert forall|i: int| 0 <= i < digits.len() implies is_digit(#[trigger] digits[i]) by {
                assert(digits[i] == text@[i + start]);
            }
            let col: usize = if upper { (first as u8 - 65u8) as usize } else { (first as u8 - 97u8) as usize };
            if rank == 0 || rank > size || col >= size {
                Err(ParseError::OutOfBounds)
            } else {
                Ok((size - rank, col))
            }
        },
    }
}

/// Reads a wall of a board of `size` rows.
pub fn read_wall(size: usize, text: &str) -> (wall: Result<(Coord, Orientation), ParseError>)
    requires
        size <= MAX_SIZE,
    ensures
        wall == parse_wall(size as nat, text@),
{
    let len = text.unicode_len();
    if len < 3 {
        return Err(ParseError::TooShort);
    }
    if len != 3 {
        return Err(ParseError::InvalidOrientation);
    }
    let mark = text.get_char(2);
    if mark != 'h' && mark != 'v' {
        return Err(ParseError::InvalidOrientation);
    }
    let cell = text.substring_char(0, 2);
    match read_cell(size, cell) {
        Err(e) => Err(e),
        Ok(anchor) => Ok(
            (
                anchor,
                if mark == 'h' {
                    Orientation::Horizontal
                } else {
                    Orientation::Vertical
                },
            ),
        ),
    }
}

/// Whether `text` is written like a wall.
pub fn is_wall_text(text: &str) -> (wall: bool)
    ensures
        wall == looks_like_wall(text@),
{
    let len = text.unicode_len();
    if len != 3 {
        return false;
    }
    let last = text.get_char(2);
    last == 'h' || last == 'v'
}

/// Writes a wall of a board of `size` rows.
pub fn write_wall(size: usize, anchor: Coord, orientation: Orientation) -> (text: String)
    requires
        size <= MAX_SIZE,
        on_board(size as nat, anchor),
    ensures
        text@ == wall_text(size as nat, anchor, orientation),
{
    let mut text = write_cell(size, anchor);
    match orientation {
        Orientation::Horizontal => text.push('h'),
        Orientation::Vertical => text.push('v'),
    }
    text
}

/// Reading what was written gives the cell back.
pub proof fn lemma_cell_round_trip(size: nat, cell: Coord)
    requires
        1 <= size <= MAX_SIZE,
        on_board(size, cell),
    ensures
        parse_cell(size, cell_text(size, cell)) == Ok::<Coord, ParseError>(cell),
{
    let s = cell_text(size, cell);
    let rest = s.subrange(1, 2);
    assert(cell_part(s) == s);
    assert(number_digits(rest) == rest);
    assert(rest.drop_last() =~= Seq::<char>::empty());
    assert(digits_value(rest) == (size - cell.0) as nat) by {
        reveal_with_fuel(digits_value, 2);
    }
}

/// Reading a written wall gives the wall back.
pub proof fn lemma_wall_round_trip(size: nat, anchor: Coord, orientation: Orientation)
    requires
        1 <= size <= MAX_SIZE,
        on_board(size, anchor),
    ensures
        parse_wall(size, wall_text(size, anchor, orientation)) == Ok::<(Coord, Orientation), ParseError>(
            (anchor, orientation),
        ),
{
    let s = wall_text(size, anchor, orientation);
    assert(s.subrange(0, 2) =~= cell_text(size, anchor));
    lemma_cell_round_trip(size, anchor);
}

} // verus!
