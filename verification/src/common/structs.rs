//! Cell coordinates come in two kinds that cannot be mistaken for one
//! another: absolute cells name a slot of the grid, relative cells are offsets
//! that name a slot only together with an origin.
use vstd::prelude::*;
use crate::common::text::{
    all_digits, all_letters, column_letters, column_reads_back, decimal, decimal_reads_back,
    decimal_value, from_chars, is_digit, is_letter, is_upper, letters_value, push_column_letters,
    push_decimal, read_digits, read_letters, scan, span, span_exact, span_is_run, to_chars,
    CharClass, ParseError, LABEL_LIMIT,
};

verus! {

/// A slot of the grid by row and column, both counted from 0.
#[derive(Debug, Clone, Copy, PartialEq, Eq, Structural, Hash, PartialOrd, Ord, Default)]
pub struct AbsCell {
    pub row: i16,
    pub col: i16,
}

/// A signed offset in rows and columns from some origin cell.
#[derive(Debug, Clone, Copy, PartialEq, Eq, Structural, Hash, PartialOrd, Ord, Default)]
pub struct RelCell {
    pub row: i16,
    pub col: i16,
}

/// Whether `value` can be held by a coordinate.
pub open spec fn fits(value: int) -> bool {
    i16::MIN <= value <= i16::MAX
}

/// The cell that a run of letters and a run of digits name together: the
/// letters its column, the digits its row, both from 1 to `LABEL_LIMIT`.
pub open spec fn cell_of(letters: Seq<char>, digits: Seq<char>) -> Option<AbsCell> {
    let col = letters_value(letters);
    let row = decimal_value(digits);
    if 1 <= col <= LABEL_LIMIT && 1 <= row <= LABEL_LIMIT {
        Some(AbsCell { row: (row - 1) as i16, col: (col - 1) as i16 })
    } else {
        None
    }
}

/// The cell that the letters of `s` from `from` to `mid` and its digits from
/// `mid` to `to` name.
pub fn read_cell(s: &Vec<char>, from: usize, mid: usize, to: usize) -> (cell: Option<AbsCell>)
    requires
        from <= mid <= to <= s.len(),
        all_letters(s@.subrange(from as int, mid as int)),
        all_digits(s@.subrange(mid as int, to as int)),
    ensures
        cell == cell_of(s@.subrange(from as int, mid as int), s@.subrange(mid as int, to as int)),
{
    let col = read_letters(s, from, mid, LABEL_LIMIT);
    let row = read_digits(s, mid, to, LABEL_LIMIT);
    match (col, row) {
        (Some(c), Some(r)) => {
            if c >= 1 && r >= 1 {
                Some(AbsCell { row: (r - 1) as i16, col: (c - 1) as i16 })
            } else {
                None
            }
        },
        _ => None,
    }
}

/// The label of a cell reads back as the cell: the label of the slot in
/// row `row` and column `col`, both counted from 0, stands in `s` from `p`
/// and is followed by no digit. Its letters end where its digits begin, its
/// digits where the label ends, and together they name the cell.
pub proof fn label_in_text(s: Seq<char>, p: int, row: int, col: int)
    requires
        0 <= row <= i16::MAX,
        0 <= col <= i16::MAX,
        0 <= p,
        p + column_letters((col + 1) as nat).len() + decimal((row + 1) as nat).len() <= s.len(),
        s.subrange(
            p,
            p + column_letters((col + 1) as nat).len() + decimal((row + 1) as nat).len(),
        ) == column_letters((col + 1) as nat) + decimal((row + 1) as nat),
        p + column_letters((col + 1) as nat).len() + decimal((row + 1) as nat).len() == s.len()
            || !is_digit(
            s[p + column_letters((col + 1) as nat).len() + decimal((row + 1) as nat).len()],
        ),
    ensures
        ({
            let k = p + column_letters((col + 1) as nat).len();
            let m = k + decimal((row + 1) as nat).len();
            &&& p < k < m
            &&& is_letter(s[p])
            &&& is_digit(s[k])
            &&& span(s, p, CharClass::Letter) == k
            &&& span(s, k, CharClass::Digit) == m
            &&& cell_of(s.subrange(p, k), s.subrange(k, m)) == Some(
                AbsCell { row: row as i16, col: col as i16 },
            )
        }),
{
    let letters = column_letters((col + 1) as nat);
    let digits = decimal((row + 1) as nat);
    let k = p + letters.len();
    let m = k + digits.len();
    let label = letters + digits;
    column_reads_back((col + 1) as nat);
    decimal_reads_back((row + 1) as nat);
    assert forall|i: int| p <= i < m implies s[i] == label[i - p] by {
        assert(s.subrange(p, m)[i - p] == s[i]);
    }
    assert forall|i: int| p <= i < k implies CharClass::Letter.has(#[trigger] s[i]) by {
        assert(s[i] == letters[i - p]);
        assert(is_upper(letters[i - p]));
    }
    assert forall|i: int| k <= i < m implies CharClass::Digit.has(#[trigger] s[i]) by {
        assert(s[i] == digits[i - k]);
        assert(is_digit(digits[i - k]));
    }
    assert(s[k] == digits[0]);
    assert(is_digit(digits[0]));
    assert(s[p] == letters[0]);
    assert(is_upper(letters[0]));
    span_exact(s, p, k, CharClass::Letter);
    span_exact(s, k, m, CharClass::Digit);
    assert(s.subrange(p, k) =~= letters);
    assert(s.subrange(k, m) =~= digits);
}

impl AbsCell {
    /// The label of a cell with a row and a column that are not negative
    /// names that cell.
    pub proof fn label_reads_back(self)
        requires
            self.row >= 0,
            self.col >= 0,
        ensures
            AbsCell::from_label(self.label()) == Some(self),
    {
        let s = self.label();
        assert(s.subrange(0, s.len() as int) =~= s);
        label_in_text(s, 0, self.row as int, self.col as int);
    }

    /// The label of the cell: its column in letters, then its row counted
    /// from 1.
    pub open spec fn label(self) -> Seq<char> {
        column_letters((self.col + 1) as nat) + decimal((self.row + 1) as nat)
    }

    /// The cell that a label names: one or more letters, then one or more
    /// digits, and nothing else.
    pub open spec fn from_label(s: Seq<char>) -> Option<AbsCell> {
        let mid = span(s, 0, CharClass::Letter);
        let end = span(s, mid, CharClass::Digit);
        if 0 < mid < end && end == s.len() {
            cell_of(s.subrange(0, mid), s.subrange(mid, end))
        } else {
            None
        }
    }

    /// Appends the label of the cell to `out`.
    pub fn push_label(&self, out: &mut Vec<char>)
        requires
            self.row >= 0,
            self.col >= 0,
        ensures
            final(out)@ == old(out)@ + self.label(),
    {
        push_column_letters(out, self.col as u32 + 1);
        push_decimal(out, self.row as u32 + 1);
    }

    /// The label of the cell, such as `A1` for the first cell of the grid.
    pub fn to_string(&self) -> (s: String)
        requires
            self.row >= 0,
            self.col >= 0,
        ensures
            s@ == self.label(),
    {
        let mut out: Vec<char> = Vec::new();
        self.push_label(&mut out);
        from_chars(&out)
    }

    /// The cell that a label names. Letters count in either case; the row is
    /// written from 1.
    pub fn from_str(s: &str) -> (r: Result<AbsCell, ParseError>)
        ensures
            match AbsCell::from_label(s@) {
                Some(cell) => r == Ok::<AbsCell, ParseError>(cell),
                None => r == Err::<AbsCell, ParseError>(ParseError::InvalidCell),
            },
    {
        let chars = to_chars(s);
        let mid = scan(&chars, 0, CharClass::Letter);
        let end = scan(&chars, mid, CharClass::Digit);
        if 0 < mid && mid < end && end == chars.len() {
            proof {
                span_is_run(chars@, 0, CharClass::Letter);
                span_is_run(chars@, mid as int, CharClass::Digit);
            }
            match read_cell(&chars, 0, mid, end) {
                Some(cell) => Ok(cell),
                None => Err(ParseError::InvalidCell),
            }
        } else {
            Err(ParseError::InvalidCell)
        }
    }

    /// The cell in row `row` and column `col`.
    pub fn new(row: i16, col: i16) -> (cell: Self)
        ensures
            cell.row == row,
            cell.col == col,
    {
        AbsCell { row, col }
    }

    /// The cell that `target` names when counted from `origin`.
    pub fn from_rel(target: RelCell, origin: AbsCell) -> (cell: Self)
        requires
            fits(origin.row + target.row),
            fits(origin.col + target.col),
        ensures
            cell.row == origin.row + target.row,
            cell.col == origin.col + target.col,
    {
        AbsCell { row: origin.row + target.row, col: origin.col + target.col }
    }

    /// The cell that `target` names when counted from the first cell of the
    /// grid.
    pub fn from_rel_origin(target: RelCell) -> (cell: Self)
        ensures
            cell.row == target.row,
            cell.col == target.col,
    {
        AbsCell { row: target.row, col: target.col }
    }

    /// The offset that leads from `origin` to this cell.
    pub fn to_rel(&self, origin: AbsCell) -> (rel: RelCell)
        requires
            fits(self.row - origin.row),
            fits(self.col - origin.col),
        ensures
            rel.row == self.row - origin.row,
            rel.col == self.col - origin.col,
    {
        RelCell { row: self.row - origin.row, col: self.col - origin.col }
    }

    /// Row-major order: by row first, then by column.
    pub open spec fn precedes(self, other: AbsCell) -> bool {
        self.row < other.row || (self.row == other.row && self.col < other.col)
    }

    /// Whether this cell comes before `other` in row-major order.
    pub fn before(&self, other: &AbsCell) -> (b: bool)
        ensures
            b == self.precedes(*other),
    {
        self.row < other.row || (self.row == other.row && self.col < other.col)
    }

    /// Whether the cell lies in a grid of `rows` rows and `cols` columns.
    pub open spec fn in_grid(self, rows: u16, cols: u16) -> bool {
        0 <= self.row < rows && 0 <= self.col < cols
    }

    /// Whether the cell lies in a grid of `rows` rows and `cols` columns.
    pub fn is_in_grid(&self, rows: u16, cols: u16) -> (b: bool)
        ensures
            b == self.in_grid(rows, cols),
    {
        0 <= self.row && (self.row as i32) < (rows as i32) && 0 <= self.col && (self.col as i32) < (
        cols as i32)
    }
}

impl RelCell {
    /// The offset of `x` rows and `y` columns.
    pub fn new(x: i16, y: i16) -> (rel: Self)
        ensures
            rel.row == x,
            rel.col == y,
    {
        RelCell { row: x, col: y }
    }

    /// The cell that this offset names when counted from `origin`.
    pub fn to_abs(&self, origin: AbsCell) -> (cell: AbsCell)
        requires
            fits(origin.row + self.row),
            fits(origin.col + self.col),
        ensures
            cell.row == origin.row + self.row,
            cell.col == origin.col + self.col,
    {
        AbsCell { row: origin.row + self.row, col: origin.col + self.col }
    }

    /// The row that this offset names when counted from `origin`.
    pub open spec fn row_at(self, origin: AbsCell) -> int {
        origin.row + self.row
    }

    /// The column that this offset names when counted from `origin`.
    pub open spec fn col_at(self, origin: AbsCell) -> int {
        origin.col + self.col
    }

    /// Whether the named cell lies in a grid of `rows` rows and `cols`
    /// columns.
    pub open spec fn in_grid_at(self, origin: AbsCell, rows: u16, cols: u16) -> bool {
        &&& 0 <= self.row_at(origin) < rows
        &&& 0 <= self.col_at(origin) < cols
        &&& fits(self.row_at(origin))
        &&& fits(self.col_at(origin))
    }

    /// Whether the named slot can be written as a label: it has a row and a
    /// column, neither negative.
    pub open spec fn nameable_at(self, origin: AbsCell) -> bool {
        &&& 0 <= self.row_at(origin) <= i16::MAX
        &&& 0 <= self.col_at(origin) <= i16::MAX
    }

    /// The label of the named cell.
    pub open spec fn label_at(self, origin: AbsCell) -> Seq<char> {
        column_letters((self.col_at(origin) + 1) as nat) + decimal(
            (self.row_at(origin) + 1) as nat,
        )
    }

    /// Appends the label of the named cell to `out`.
    pub fn push_label(&self, out: &mut Vec<char>, origin: AbsCell)
        requires
            self.nameable_at(origin),
        ensures
            final(out)@ == old(out)@ + self.label_at(origin),
    {
        let col: i32 = origin.col as i32 + self.col as i32;
        let row: i32 = origin.row as i32 + self.row as i32;
        push_column_letters(out, col as u32 + 1);
        push_decimal(out, row as u32 + 1);
    }

    /// The named cell where it lies in the grid, nothing otherwise.
    pub fn resolve(&self, origin: AbsCell, rows: u16, cols: u16) -> (cell: Option<AbsCell>)
        ensures
            cell is Some == self.in_grid_at(origin, rows, cols),
            cell matches Some(c) ==> c.row == self.row_at(origin) && c.col == self.col_at(origin),
    {
        let row: i32 = origin.row as i32 + self.row as i32;
        let col: i32 = origin.col as i32 + self.col as i32;
        if 0 <= row && row < rows as i32 && 0 <= col && col < cols as i32 && row <= 32767 && col
            <= 32767 {
            Some(AbsCell { row: row as i16, col: col as i16 })
        } else {
            None
        }
    }
}

} // verus!
