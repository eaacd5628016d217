//! A sheet of whole numbers for the terminal front end.
//!
//! Cells are named by column and row, both counted from 1. A cell holds a
//! number or the mark of an error. What a cell is given is a number or one of
//! the simplest formulas: a reference, one operator between two operands, a
//! function of a range, or a delay. The sheet keeps the formulas, and the
//! graph of what reads what, and evaluates the cells that depend on a cell
//! again when the cell is given something.
use vstd::prelude::*;
use vstd::string::StrSliceExecFns;
use crate::common::cell_map::CellMap;
use crate::common::expression::RangeFunction;
use crate::common::structs::AbsCell;
use crate::common::text::{
    column_letters, decimal, find_char, from_chars, index_of, push_column_letters, push_decimal,
    read_whole, to_chars, trim, trimmed, whole,
};
use crate::embedded_backend::graph::{
    acyclic, awaited, connected, earlier, edge_connects, edges_to_one_cell_acyclic,
    fewer_edges_acyclic, listed, DependencyGraph, Edge,
};
use crate::function::{
    answers_all, binary, column_major, column_major_within, eval_binary, gathers, made_of,
    range_function, ranged, reads, waits,
};
use crate::myparser::{read_trimmed_coordinate, slice, Coord, MyParser};

verus! {

/// What a cell of the sheet holds: a number, or the mark of an error.
#[derive(Debug, Clone, PartialEq, Eq, Structural, Copy)]
pub enum Cell {
    Value(i32),
    Error,
}

impl Cell {
    /// A cell as the sheet starts with it: the number zero.
    pub fn new() -> (cell: Self)
        ensures
            cell == Cell::Value(0),
    {
        Cell::Value(0)
    }
}

/// An operand of an operator: a number, or the cell that holds it.
#[derive(Debug, Clone, Copy, PartialEq, Eq)]
pub enum Operand {
    Literal(i32),
    Cell(Coord),
}

/// A formula of the sheet.
#[derive(Debug, Clone, Copy, PartialEq, Eq)]
pub enum Formula {
    /// A delay of as many seconds as a cell holds.
    Sleep(Coord),
    /// An operator, by its code, between two operands.
    Binary(i8, Operand, Operand),
    /// A function of the cells between two corners.
    Range(RangeFunction, Coord, Coord),
    /// What another cell holds.
    Reference(Coord),
}

/// What a text gives a cell.
#[derive(Debug, Clone, Copy, PartialEq, Eq)]
pub enum Entry {
    /// A number.
    Number(i32),
    /// A delay of a given number of seconds, which leaves that number.
    Pause(i32),
    /// A formula.
    Formula(Formula),
    /// Nothing: the text is no number and no formula.
    Refused,
}

/// The letters of the column `n`, counted from 1: `A` for 1, `AA` for 27.
pub fn col_to_letter(n: usize) -> (s: String)
    requires
        n <= u32::MAX,
    ensures
        s@ == column_letters(n as nat),
{
    let mut out: Vec<char> = Vec::new();
    push_column_letters(&mut out, n as u32);
    from_chars(&out)
}

/// Whether `cell`, a column and a row, lies in the rectangle between the
/// corners `start` and `end`, in whichever order the corners are given.
pub open spec fn within(cell: (u16, u16), start: (u16, u16), end: (u16, u16)) -> bool {
    &&& (start.0 <= cell.0 <= end.0 || end.0 <= cell.0 <= start.0)
    &&& (start.1 <= cell.1 <= end.1 || end.1 <= cell.1 <= start.1)
}

/// Whether `cell` lies in the rectangle between `start` and `end`, in
/// whichever order the corners are given.
pub fn is_within_range(cell: (u16, u16), start: (u16, u16), end: (u16, u16)) -> (b: bool)
    ensures
        b == within(cell, start, end),
{
    let (col, row) = cell;
    let (start_col, start_row) = start;
    let (end_col, end_row) = end;
    let min_col = if start_col < end_col {
        start_col
    } else {
        end_col
    };
    let max_col = if start_col < end_col {
        end_col
    } else {
        start_col
    };
    let min_row = if start_row < end_row {
        start_row
    } else {
        end_row
    };
    let max_row = if start_row < end_row {
        end_row
    } else {
        start_row
    };
    col >= min_col && col <= max_col && row >= min_row && row <= max_row
}

/// The key under which the graph and the formulas know a cell: rows and
/// columns in the same order, moved to where the keys have their range.
pub open spec fn key(coord: Coord) -> AbsCell {
    AbsCell { row: (coord.1 - 32768) as i16, col: (coord.0 - 32768) as i16 }
}

/// The key of a cell.
pub fn key_of(coord: Coord) -> (k: AbsCell)
    ensures
        k == key(coord),
{
    AbsCell { row: (coord.1 as i32 - 32768) as i16, col: (coord.0 as i32 - 32768) as i16 }
}

/// Different cells have different keys.
pub proof fn keys_differ(a: Coord, b: Coord)
    ensures
        key(a) == key(b) ==> a == b,
{
}

impl Operand {
    /// Whether the operand is the cell `on`.
    pub open spec fn reads(self, on: Coord) -> bool {
        self == Operand::Cell(on)
    }
}

impl Formula {
    /// Whether the formula reads the cell `on`.
    pub open spec fn reads(self, on: Coord) -> bool {
        match self {
            Formula::Sleep(c) => on == c,
            Formula::Binary(_, a, b) => a.reads(on) || b.reads(on),
            Formula::Range(_, start, end) => start.0 <= on.0 <= end.0 && start.1 <= on.1 <= end.1,
            Formula::Reference(c) => on == c,
        }
    }

    /// Appends the key of every cell that the formula reads to `read`.
    pub fn collect(&self, read: &mut Vec<AbsCell>)
        ensures
            forall|k: AbsCell|
                #[trigger] final(read)@.contains(k) <==> old(read)@.contains(k) || exists|on: Coord|
                    self.reads(on) && #[trigger] key(on) == k,
    {
        match self {
            Formula::Sleep(c) => {
                let k = key_of(*c);
                read.push(k);
                assert forall|x: AbsCell|
                    #[trigger] read@.contains(x) <==> old(read)@.contains(x) || exists|on: Coord|
                        self.reads(on) && #[trigger] key(on) == x by {
                    crate::common::expression::pushed_or_held(old(read)@, k, x);
                    if x == k {
                        assert(self.reads(*c) && key(*c) == x);
                    }
                }
            },
            Formula::Reference(c) => {
                let k = key_of(*c);
                read.push(k);
                assert forall|x: AbsCell|
                    #[trigger] read@.contains(x) <==> old(read)@.contains(x) || exists|on: Coord|
                        self.reads(on) && #[trigger] key(on) == x by {
                    crate::common::expression::pushed_or_held(old(read)@, k, x);
                    if x == k {
                        assert(self.reads(*c) && key(*c) == x);
                    }
                }
            },
            Formula::Binary(_, a, b) => {
                let ghost first = read@;
                match a {
                    Operand::Cell(c) => {
                        read.push(key_of(*c));
                    },
                    Operand::Literal(_) => {},
                }
                let ghost second = read@;
                match b {
                    Operand::Cell(c) => {
                        read.push(key_of(*c));
                    },
                    Operand::Literal(_) => {},
                }
                assert forall|x: AbsCell|
                    #[trigger] read@.contains(x) <==> old(read)@.contains(x) || exists|on: Coord|
                        self.reads(on) && #[trigger] key(on) == x by {
                    match a {
                        Operand::Cell(c) => {
                            crate::common::expression::pushed_or_held(first, key(*c), x);
                            if x == key(*c) {
                                assert(self.reads(*c) && key(*c) == x);
                            }
                        },
                        Operand::Literal(_) => {},
                    }
                    match b {
                        Operand::Cell(c) => {
                            crate::common::expression::pushed_or_held(second, key(*c), x);
                            if x == key(*c) {
                                assert(self.reads(*c) && key(*c) == x);
                            }
                        },
                        Operand::Literal(_) => {},
                    }
                }
            },
            Formula::Range(_, start, end) => {
                let mut col: u32 = start.0 as u32;
                while col <= end.0 as u32
                    invariant
                        start.0 <= col,
                        col <= end.0 + 1 || col == start.0,
                        forall|x: AbsCell|
                            #[trigger] read@.contains(x) <==> old(read)@.contains(x) || exists|
                                on: Coord,
                            |
                                start.0 <= on.0 < col && start.1 <= on.1 <= end.1 && #[trigger] key(
                                    on,
                                ) == x,
                    decreases end.0 + 1 - col,
                {
                    let mut row: u32 = start.1 as u32;
                    while row <= end.1 as u32
                        invariant
                            start.0 <= col <= end.0,
                            start.1 <= row,
                            row <= end.1 + 1 || row == start.1,
                            forall|x: AbsCell|
                                #[trigger] read@.contains(x) <==> old(read)@.contains(x) || exists|
                                    on: Coord,
                                |
                                    ((start.0 <= on.0 < col && start.1 <= on.1 <= end.1) || (on.0
                                        == col && start.1 <= on.1 < row)) && #[trigger] key(on)
                                        == x,
                        decreases end.1 + 1 - row,
                    {
                        let here: Coord = (col as u16, row as u16);
                        let k = key_of(here);
                        let ghost before = read@;
                        read.push(k);
                        assert forall|x: AbsCell|
                            #[trigger] read@.contains(x) <==> old(read)@.contains(x) || exists|
                                on: Coord,
                            |
                                ((start.0 <= on.0 < col && start.1 <= on.1 <= end.1) || (on.0
                                    == col && start.1 <= on.1 < row + 1)) && #[trigger] key(on)
                                    == x by {
                            crate::common::expression::pushed_or_held(before, k, x);
                            if x == k {
                                assert(key(here) == x);
                            }
                            if before.contains(x) && !old(read)@.contains(x) {
                                let on = choose|on: Coord|
                                    ((start.0 <= on.0 < col && start.1 <= on.1 <= end.1) || (on.0
                                        == col && start.1 <= on.1 < row)) && #[trigger] key(on)
                                        == x;
                                assert(key(on) == x);
                            }
                            if exists|on: Coord|
                                ((start.0 <= on.0 < col && start.1 <= on.1 <= end.1) || (on.0
                                    == col && start.1 <= on.1 < row + 1)) && #[trigger] key(on)
                                    == x {
                                let on = choose|on: Coord|
                                    ((start.0 <= on.0 < col && start.1 <= on.1 <= end.1) || (on.0
                                        == col && start.1 <= on.1 < row + 1)) && #[trigger] key(on)
                                        == x;
                                if on != here {
                                    assert(key(on) == x);
                                }
                            }
                        }
                        row = row + 1;
                    }
                    assert forall|x: AbsCell|
                        #[trigger] read@.contains(x) <==> old(read)@.contains(x) || exists|
                            on: Coord,
                        |
                            start.0 <= on.0 < col + 1 && start.1 <= on.1 <= end.1 && #[trigger] key(
                                on,
                            ) == x by {
                        if read@.contains(x) && !old(read)@.contains(x) {
                            let on = choose|on: Coord|
                                ((start.0 <= on.0 < col && start.1 <= on.1 <= end.1) || (on.0
                                    == col && start.1 <= on.1 < row)) && #[trigger] key(on) == x;
                            assert(key(on) == x);
                        }
                        if exists|on: Coord|
                            start.0 <= on.0 < col + 1 && start.1 <= on.1 <= end.1 && #[trigger] key(
                                on,
                            ) == x {
                            let on = choose|on: Coord|
                                start.0 <= on.0 < col + 1 && start.1 <= on.1 <= end.1
                                    && #[trigger] key(on) == x;
                            assert(key(on) == x);
                        }
                    }
                    col = col + 1;
                }
                assert forall|x: AbsCell|
                    #[trigger] read@.contains(x) <==> old(read)@.contains(x) || exists|on: Coord|
                        self.reads(on) && #[trigger] key(on) == x by {
                    if read@.contains(x) && !old(read)@.contains(x) {
                        let on = choose|on: Coord|
                            start.0 <= on.0 < col && start.1 <= on.1 <= end.1 && #[trigger] key(on)
                                == x;
                        assert(self.reads(on) && key(on) == x);
                    }
                    if exists|on: Coord| self.reads(on) && #[trigger] key(on) == x {
                        let on = choose|on: Coord| self.reads(on) && #[trigger] key(on) == x;
                        assert(start.0 <= on.0 < col && start.1 <= on.1 <= end.1 && key(on) == x);
                    }
                }
            },
        }
    }

    /// The keys of the cells that the formula reads.
    pub fn keys(&self) -> (read: Vec<AbsCell>)
        ensures
            forall|k: AbsCell| #[trigger] read@.contains(k) <==> self.reads(coord_of(k)),
    {
        let mut read: Vec<AbsCell> = Vec::new();
        self.collect(&mut read);
        proof {
            assert forall|k: AbsCell| #[trigger] read@.contains(k) <==> self.reads(coord_of(k)) by {
                keys_and_cells(coord_of(k), k);
                if read@.contains(k) {
                    let on = choose|on: Coord| self.reads(on) && #[trigger] key(on) == k;
                    keys_and_cells(on, k);
                }
                if self.reads(coord_of(k)) {
                    assert(key(coord_of(k)) == k);
                }
            }
        }
        read
    }
}

/// The cell that a key stands for.
pub open spec fn coord_of(k: AbsCell) -> Coord {
    ((k.col + 32768) as u16, (k.row + 32768) as u16)
}

/// The cell that a key stands for.
pub fn cell_of_key(k: AbsCell) -> (coord: Coord)
    ensures
        coord == coord_of(k),
        key(coord) == k,
{
    ((k.col as i32 + 32768) as u16, (k.row as i32 + 32768) as u16)
}

/// Keys and cells stand for one another.
pub proof fn keys_and_cells(coord: Coord, k: AbsCell)
    ensures
        coord_of(key(coord)) == coord,
        key(coord_of(k)) == k,
{
}

/// The operator that a character writes, by its code: 1 adds, 2 subtracts,
/// 3 multiplies and 5 divides.
pub open spec fn code_of(op: char) -> i8 {
    if op == '+' {
        1
    } else if op == '-' {
        2
    } else if op == '*' {
        3
    } else {
        5
    }
}

/// The operand that `t` writes: the name of a cell, or else a whole number.
pub open spec fn operand(t: Seq<char>) -> Option<Operand> {
    match MyParser::cell_coordinate(t) {
        Some(c) => Some(Operand::Cell(c)),
        None => match whole(t) {
            Some(v) => Some(Operand::Literal(v)),
            None => None,
        },
    }
}

/// Whether `t` is written as a delay: `SLEEP(`, something, and `)`.
pub open spec fn is_delay(t: Seq<char>) -> bool {
    t.len() >= 7 && t.subrange(0, 6) == seq!['S', 'L', 'E', 'E', 'P', '('] && t.last() == ')'
}

/// The function of a range that a name of the grammar of ranges names.
pub open spec fn range_function_named(name: Seq<char>) -> Option<RangeFunction> {
    if name == seq!['M', 'I', 'N'] {
        Some(RangeFunction::Min)
    } else if name == seq!['M', 'A', 'X'] {
        Some(RangeFunction::Max)
    } else if name == seq!['A', 'V', 'G'] {
        Some(RangeFunction::Avg)
    } else if name == seq!['S', 'U', 'M'] {
        Some(RangeFunction::Sum)
    } else if name == seq!['S', 'T', 'D', 'E', 'V'] {
        Some(RangeFunction::Stdev)
    } else {
        None
    }
}

/// What the text `t`, without blanks round it, gives a cell of a sheet of
/// `rows` rows and `cols` columns once it is known to be no delay of a number
/// or of a cell: one operator between two operands; else a function of a
/// range whose corners are in order and in the sheet; else a reference; else
/// a whole number.
pub open spec fn plain_entry(t: Seq<char>, rows: usize, cols: usize) -> Entry {
    match MyParser::split(t) {
        Some((op, l, r)) => match (operand(l), operand(r)) {
            (Some(a), Some(b)) => Entry::Formula(Formula::Binary(code_of(op), a, b)),
            _ => Entry::Refused,
        },
        None => match MyParser::range_call(t) {
            Some((name, start, end)) => match range_function_named(name) {
                Some(f) => if start.0 <= end.0 && start.1 <= end.1 && end.0 <= cols && end.1
                    <= rows {
                    Entry::Formula(Formula::Range(f, start, end))
                } else {
                    Entry::Refused
                },
                None => Entry::Refused,
            },
            None => match MyParser::cell_coordinate(t) {
                Some(c) => Entry::Formula(Formula::Reference(c)),
                None => match whole(t) {
                    Some(v) => Entry::Number(v),
                    None => Entry::Refused,
                },
            },
        },
    }
}

/// What the text `text` gives a cell of a sheet of `rows` rows and `cols`
/// columns. Blanks round the text do not count. A delay of a range is
/// refused; a delay of a whole number leaves that number; a delay of a cell
/// is a formula; every other text is read as it stands.
pub open spec fn entry_of(text: Seq<char>, rows: usize, cols: usize) -> Entry {
    let t = trimmed(text);
    if is_delay(t) {
        let arg = t.subrange(6, t.len() - 1);
        if index_of(arg, 0, ':') < arg.len() {
            Entry::Refused
        } else {
            match whole(arg) {
                Some(v) => Entry::Pause(v),
                None => match MyParser::cell_coordinate(arg) {
                    Some(c) => Entry::Formula(Formula::Sleep(c)),
                    None => plain_entry(t, rows, cols),
                },
            }
        }
    } else {
        plain_entry(t, rows, cols)
    }
}

/// The operand that `text` writes.
fn read_operand(text: &str) -> (r: Option<Operand>)
    ensures
        r == operand(text@),
{
    match MyParser::cell_name_to_coord(text) {
        Some(c) => Some(Operand::Cell(c)),
        None => {
            let chars = to_chars(text);
            match read_whole(&chars) {
                Some(v) => Some(Operand::Literal(v)),
                None => None,
            }
        },
    }
}

/// The function of a range that `name` names.
fn read_range_function(name: &str) -> (r: Option<RangeFunction>)
    ensures
        r == range_function_named(name@),
{
    let chars = to_chars(name);
    let n = chars.len();
    assert(chars@.subrange(0, n as int) =~= chars@);
    let min = vec!['M', 'I', 'N'];
    let max = vec!['M', 'A', 'X'];
    let avg = vec!['A', 'V', 'G'];
    let sum = vec!['S', 'U', 'M'];
    let stdev = vec!['S', 'T', 'D', 'E', 'V'];
    assert(min@ =~= seq!['M', 'I', 'N']);
    assert(max@ =~= seq!['M', 'A', 'X']);
    assert(avg@ =~= seq!['A', 'V', 'G']);
    assert(sum@ =~= seq!['S', 'U', 'M']);
    assert(stdev@ =~= seq!['S', 'T', 'D', 'E', 'V']);
    if crate::common::text::same_text(&chars, 0, n, &min) {
        Some(RangeFunction::Min)
    } else if crate::common::text::same_text(&chars, 0, n, &max) {
        Some(RangeFunction::Max)
    } else if crate::common::text::same_text(&chars, 0, n, &avg) {
        Some(RangeFunction::Avg)
    } else if crate::common::text::same_text(&chars, 0, n, &sum) {
        Some(RangeFunction::Sum)
    } else if crate::common::text::same_text(&chars, 0, n, &stdev) {
        Some(RangeFunction::Stdev)
    } else {
        None
    }
}

/// What the text `t`, without blanks round it, gives a cell once it is known
/// to be no delay of a number or of a cell.
fn read_plain_entry(t: &str, rows: usize, cols: usize) -> (entry: Entry)
    ensures
        entry == plain_entry(t@, rows, cols),
{
    match MyParser::split_binary(t) {
        Some((op, l, r)) => {
            let code: i8 = if op == '+' {
                1
            } else if op == '-' {
                2
            } else if op == '*' {
                3
            } else {
                5
            };
            match (read_operand(l), read_operand(r)) {
                (Some(a), Some(b)) => Entry::Formula(Formula::Binary(code, a, b)),
                _ => Entry::Refused,
            }
        },
        None => match MyParser::parse_range(t) {
            Some((name, start, end)) => match read_range_function(name) {
                Some(f) => {
                    if start.0 <= end.0 && start.1 <= end.1 && end.0 as usize <= cols
                        && end.1 as usize <= rows {
                        Entry::Formula(Formula::Range(f, start, end))
                    } else {
                        Entry::Refused
                    }
                },
                None => Entry::Refused,
            },
            None => match MyParser::cell_name_to_coord(t) {
                Some(c) => Entry::Formula(Formula::Reference(c)),
                None => {
                    let chars = to_chars(t);
                    match read_whole(&chars) {
                        Some(v) => Entry::Number(v),
                        None => Entry::Refused,
                    }
                },
            },
        },
    }
}

/// What the text `expr` gives a cell of a sheet of `rows` rows and `cols`
/// columns.
pub fn read_entry(expr: &str, rows: usize, cols: usize) -> (entry: Entry)
    ensures
        entry == entry_of(expr@, rows, cols),
{
    let chars = to_chars(expr);
    assert(chars@.subrange(0, chars@.len() as int) =~= chars@);
    let (a, b) = trim(&chars, 0, chars.len());
    let t = expr.substring_char(a, b);
    let n = b - a;
    let delay = n >= 7 && chars[a] == 'S' && chars[a + 1] == 'L' && chars[a + 2] == 'E' && chars[a
        + 3] == 'E' && chars[a + 4] == 'P' && chars[a + 5] == '(' && chars[b - 1] == ')';
    proof {
        if n >= 7 {
            let head = t@.subrange(0, 6);
            assert(head[0] == chars@[a as int] && head[1] == chars@[a + 1] && head[2] == chars@[a
                + 2] && head[3] == chars@[a + 3] && head[4] == chars@[a + 4] && head[5] == chars@[a
                + 5]);
            if delay {
                assert(head =~= seq!['S', 'L', 'E', 'E', 'P', '(']);
            }
            assert(t@.last() == chars@[b - 1]);
        }
    }
    if delay {
        let arg = slice(&chars, a + 6, b - 1);
        assert(arg@ =~= t@.subrange(6, t@.len() - 1));
        if find_char(&arg, 0, ':') < arg.len() {
            return Entry::Refused;
        }
        match read_whole(&arg) {
            Some(v) => {
                return Entry::Pause(v);
            },
            None => {},
        }
        assert(arg@.subrange(0, arg@.len() as int) =~= arg@);
        match read_trimmed_coordinate(&arg, 0, arg.len()) {
            Some(c) => {
                return Entry::Formula(Formula::Sleep(c));
            },
            None => {},
        }
    }
    read_plain_entry(t, rows, cols)
}

/// `s`, with blanks before it up to the width `width`.
pub open spec fn padded(s: Seq<char>, width: nat) -> Seq<char> {
    if s.len() >= width {
        s
    } else {
        Seq::new((width - s.len()) as nat, |i: int| ' ') + s
    }
}

/// The numeral of a whole number, with a minus sign where it is below zero.
pub open spec fn signed(v: int) -> Seq<char> {
    if v < 0 {
        seq!['-'] + decimal((-v) as nat)
    } else {
        decimal(v as nat)
    }
}

/// How a cell is shown: its number, or `ERR` for the mark of an error, in a
/// column of 8.
pub open spec fn shown(cell: Cell) -> Seq<char> {
    match cell {
        Cell::Value(v) => padded(signed(v as int), 8),
        Cell::Error => padded(seq!['E', 'R', 'R'], 8),
    }
}

/// Appends `text` to `out`, with blanks before it up to the width `width`.
pub fn push_padded(out: &mut Vec<char>, text: &Vec<char>, width: usize)
    ensures
        final(out)@ == old(out)@ + padded(text@, width as nat),
{
    let mut i: usize = text.len();
    while i < width
        invariant
            text@.len() <= i || i == text@.len(),
            i <= width || i == text@.len(),
            out@ == old(out)@ + Seq::new((i - text@.len()) as nat, |k: int| ' '),
        decreases width - i,
    {
        out.push(' ');
        assert(out@ =~= old(out)@ + Seq::new((i + 1 - text@.len()) as nat, |k: int| ' '));
        i += 1;
    }
    let ghost blanks = out@;
    let mut j: usize = 0;
    while j < text.len()
        invariant
            j <= text@.len(),
            out@ == blanks + text@.take(j as int),
        decreases text@.len() - j,
    {
        out.push(text[j]);
        assert(out@ =~= blanks + text@.take(j + 1));
        j += 1;
    }
    assert(text@.take(j as int) =~= text@);
    assert(out@ =~= old(out)@ + padded(text@, width as nat)) by {
        if text@.len() >= width {
            assert(blanks =~= old(out)@);
        }
    }
}

/// The numeral of `v`, with a minus sign where it is below zero.
pub fn signed_numeral(v: i32) -> (text: Vec<char>)
    ensures
        text@ == signed(v as int),
{
    let mut text: Vec<char> = Vec::new();
    if v < 0 {
        text.push('-');
        push_decimal(&mut text, (-(v as i64)) as u32);
    } else {
        push_decimal(&mut text, v as u32);
    }
    text
}

/// The last of at most `most` places after `start`, none of them after
/// `limit`.
pub open spec fn last_shown(start: int, most: int, limit: int) -> int {
    if start + most <= limit {
        start + most
    } else {
        limit
    }
}

/// The sheet of whole numbers: its size, what its cells hold, the formulas
/// of its cells, and the graph of what reads what.
pub struct Spreadsheet {
    pub rows: usize,
    pub cols: usize,
    pub cells: Vec<Vec<Cell>>,
    formulas: CellMap<Formula>,
    graph: DependencyGraph,
}

/// The numbers of `cells` as `holds` gives them, in order; nothing if a
/// cell has none.
pub open spec fn listed_numbers(holds: spec_fn(Coord) -> Option<i32>, cells: Seq<Coord>) -> Option<
    Seq<i32>,
>
    decreases cells.len(),
{
    if cells.len() == 0 {
        Some(Seq::empty())
    } else {
        match (listed_numbers(holds, cells.drop_last()), holds(cells.last())) {
            (Some(numbers), Some(v)) => Some(numbers.push(v)),
            _ => None,
        }
    }
}

/// What is listed depends only on what the listed cells hold.
pub proof fn listed_alike(
    first: spec_fn(Coord) -> Option<i32>,
    second: spec_fn(Coord) -> Option<i32>,
    cells: Seq<Coord>,
)
    requires
        forall|k: int| 0 <= k < cells.len() ==> first(#[trigger] cells[k]) == second(cells[k]),
    ensures
        listed_numbers(first, cells) == listed_numbers(second, cells),
    decreases cells.len(),
{
    if cells.len() > 0 {
        let rest = cells.drop_last();
        assert forall|k: int| 0 <= k < rest.len() implies first(#[trigger] rest[k]) == second(
            rest[k],
        ) by {
            assert(rest[k] == cells[k]);
        }
        listed_alike(first, second, rest);
        assert(first(cells[cells.len() - 1]) == second(cells[cells.len() - 1]));
    }
}

/// A getter that answers as `holds` does reads the numbers that `holds`
/// gives.
pub proof fn reads_what_is_held<F: Fn(Coord) -> Option<i32>>(
    get_val: &F,
    holds: spec_fn(Coord) -> Option<i32>,
    cells: Seq<Coord>,
    numbers: Seq<i32>,
    upto: int,
)
    requires
        forall|c: Coord, r: Option<i32>| #[trigger] get_val.ensures((c,), r) ==> r == holds(c),
        0 <= upto <= numbers.len() <= cells.len(),
        forall|k: int|
            0 <= k < numbers.len() ==> get_val.ensures((cells[k],), Some(#[trigger] numbers[k])),
    ensures
        listed_numbers(holds, cells.take(upto)) == Some(numbers.take(upto)),
    decreases upto,
{
    if upto > 0 {
        reads_what_is_held(get_val, holds, cells, numbers, upto - 1);
        assert(cells.take(upto).drop_last() =~= cells.take(upto - 1));
        assert(get_val.ensures((cells[upto - 1],), Some(numbers[upto - 1])));
        assert(numbers.take(upto) =~= numbers.take(upto - 1).push(numbers[upto - 1]));
    } else {
        assert(numbers.take(0) =~= Seq::<i32>::empty());
    }
}

/// Once a cell has no number, the cells up to it and beyond have none.
pub proof fn nothing_listed(holds: spec_fn(Coord) -> Option<i32>, cells: Seq<Coord>, at: int)
    requires
        0 <= at < cells.len(),
        holds(cells[at]) is None,
    ensures
        listed_numbers(holds, cells) is None,
    decreases cells.len(),
{
    if at < cells.len() - 1 {
        nothing_listed(holds, cells.drop_last(), at);
    }
}

/// A getter that answers as `holds` does gathers what `holds` lists.
pub proof fn gathers_what_is_held<F: Fn(Coord) -> Option<i32>>(
    get_val: &F,
    holds: spec_fn(Coord) -> Option<i32>,
    cells: Seq<Coord>,
    got: Option<Seq<i32>>,
)
    requires
        forall|c: Coord, r: Option<i32>| #[trigger] get_val.ensures((c,), r) ==> r == holds(c),
        gathers(get_val, cells, got),
    ensures
        got == listed_numbers(holds, cells),
{
    match got {
        Some(numbers) => {
            reads_what_is_held(get_val, holds, cells, numbers, numbers.len() as int);
            assert(cells.take(cells.len() as int) =~= cells);
            assert(numbers.take(numbers.len() as int) =~= numbers);
        },
        None => {
            let numbers = choose|numbers: Seq<i32>| #[trigger] reads(get_val, cells, numbers, false);
            assert(get_val.ensures((cells[numbers.len() as int],), None));
            nothing_listed(holds, cells, numbers.len() as int);
        },
    }
}

impl Spreadsheet {
    /// Whether `coord` names a cell of the sheet. Row 0 and column 0 are
    /// cells of it, though no name leads to them.
    pub open spec fn inside(&self, coord: Coord) -> bool {
        coord.1 <= self.height() && coord.0 <= self.width()
    }

    /// The number of rows of the sheet.
    pub closed spec fn height(&self) -> usize {
        self.rows
    }

    /// The number of columns of the sheet.
    pub closed spec fn width(&self) -> usize {
        self.cols
    }

    /// What the cell `coord` holds.
    pub closed spec fn cell(&self, coord: Coord) -> Cell {
        self.cells@[coord.1 as int]@[coord.0 as int]
    }

    /// The number that the cell `coord` holds; nothing for a cell in error
    /// and for a cell outside the sheet.
    pub open spec fn holds(&self, coord: Coord) -> Option<i32> {
        if self.inside(coord) {
            match self.cell(coord) {
                Cell::Value(v) => Some(v),
                Cell::Error => None,
            }
        } else {
            None
        }
    }

    /// The formula of the cell `coord`, if it has one.
    pub closed spec fn formula(&self, coord: Coord) -> Option<Formula> {
        if self.formulas@.contains_key(key(coord)) {
            Some(self.formulas@[key(coord)])
        } else {
            None
        }
    }

    /// Whether the formula of `cell` reads `on`.
    pub open spec fn depends(&self, on: Coord, cell: Coord) -> bool {
        self.formula(cell) matches Some(f) && f.reads(on)
    }

    /// The edges that the formulas call for: from each cell that is read to
    /// the cell whose formula reads it.
    pub open spec fn needed(&self) -> Set<Edge> {
        Set::new(|e: Edge| self.depends(coord_of(e.0), coord_of(e.1)))
    }

    /// The edges that the graph of the sheet holds.
    pub closed spec fn edges(&self) -> Set<Edge> {
        self.graph.edges()
    }

    /// Whether the parts of the sheet are in order: it has a cell for every
    /// column and row up to its size, and formulas only for its own cells. The
    /// graph of such a sheet may hold the edges of a formula that is being
    /// tried, and with them a cell that depends on itself.
    pub closed spec fn linked(&self) -> bool {
        &&& self.rows < 65536
        &&& self.cols < 65536
        &&& self.cells@.len() == self.rows + 1
        &&& forall|r: int| 0 <= r <= self.rows ==> (#[trigger] self.cells@[r])@.len() == self.cols + 1
        &&& self.formulas.wf()
        &&& self.graph.wf()
        &&& forall|k: AbsCell| #[trigger]
            self.formulas@.contains_key(k) ==> self.inside(coord_of(k))
    }

    /// Whether the sheet is sound: its parts are in order, its graph holds
    /// the edges that the formulas call for, and no cell depends on itself.
    pub open spec fn wf(&self) -> bool {
        &&& self.linked()
        &&& self.edges() == self.needed()
        &&& acyclic(self.edges())
    }

    /// A sound sheet has the edges that its formulas call for, and no cell
    /// of it depends on itself.
    pub proof fn graph_follows_formulas(&self)
        requires
            self.wf(),
        ensures
            self.edges() == self.needed(),
            acyclic(self.edges()),
            self.height() < 65536,
            self.width() < 65536,
            forall|coord: Coord| self.formula(coord) is Some ==> self.inside(coord),
    {
        assert forall|coord: Coord| self.formula(coord) is Some implies self.inside(coord) by {
            assert(self.formulas@.contains_key(key(coord)));
            keys_and_cells(coord, key(coord));
        }
    }

    /// A sheet of `rows` rows and `cols` columns in which every cell holds
    /// zero and none has a formula.
    pub fn new(rows: usize, cols: usize) -> (sheet: Self)
        requires
            rows < 65536,
            cols < 65536,
        ensures
            sheet.wf(),
            sheet.height() == rows,
            sheet.width() == cols,
            forall|coord: Coord|
                sheet.inside(coord) ==> #[trigger] sheet.holds(coord) == Some(0i32),
            forall|coord: Coord| #[trigger] sheet.formula(coord) is None,
            sheet.consistent(),
    {
        let mut cells: Vec<Vec<Cell>> = Vec::new();
        let mut r: usize = 0;
        while r <= rows
            invariant
                rows < 65536,
                cols < 65536,
                r <= rows + 1,
                cells@.len() == r,
                forall|i: int| 0 <= i < r ==> (#[trigger] cells@[i])@.len() == cols + 1,
                forall|i: int, j: int|
                    0 <= i < r && 0 <= j <= cols ==> (#[trigger] cells@[i]@[j]) == Cell::Value(0),
            decreases rows + 1 - r,
        {
            let mut row: Vec<Cell> = Vec::new();
            let mut c: usize = 0;
            while c <= cols
                invariant
                    cols < 65536,
                    c <= cols + 1,
                    row@.len() == c,
                    forall|j: int| 0 <= j < c ==> (#[trigger] row@[j]) == Cell::Value(0),
                decreases cols + 1 - c,
            {
                row.push(Cell::new());
                c += 1;
            }
            cells.push(row);
            r += 1;
        }
        let sheet = Spreadsheet {
            rows,
            cols,
            cells,
            formulas: CellMap::new(),
            graph: DependencyGraph::new(),
        };
        proof {
            assert(sheet.needed() =~= Set::<Edge>::empty());
            assert forall|cell: AbsCell| !#[trigger] connected(sheet.graph.edges(), cell, cell) by {
                if connected(sheet.graph.edges(), cell, cell) {
                    let path = choose|path: Seq<AbsCell>| #[trigger]
                        crate::embedded_backend::graph::leads(
                            sheet.graph.edges(),
                            path,
                            cell,
                            cell,
                        );
                    assert(crate::embedded_backend::graph::hop(sheet.graph.edges(), path, 0));
                }
            }
        }
        sheet
    }

    /// The number of rows of the sheet.
    pub fn rows(&self) -> (rows: usize)
        ensures
            rows == self.height(),
    {
        self.rows
    }

    /// The number of columns of the sheet.
    pub fn cols(&self) -> (cols: usize)
        ensures
            cols == self.width(),
    {
        self.cols
    }

    /// The number that the cell `coord` holds; nothing for a cell in error
    /// and for a cell outside the sheet.
    pub fn get_val(&self, coord: (u16, u16)) -> (r: Option<i32>)
        requires
            self.wf(),
        ensures
            r == self.holds(coord),
    {
        let (c, r) = coord;
        if r as usize <= self.rows && c as usize <= self.cols {
            match &self.cells[r as usize][c as usize] {
                Cell::Value(v) => Some(*v),
                Cell::Error => None,
            }
        } else {
            None
        }
    }

    /// The number that an operand stands for; nothing for a cell that has
    /// none.
    pub open spec fn operand_value(&self, operand: Operand) -> Option<i32> {
        match operand {
            Operand::Literal(v) => Some(v),
            Operand::Cell(c) => self.holds(c),
        }
    }

    /// What an operator gives for its operands in the sheet: the mark of an
    /// error for a division by zero and for an operand that has no number;
    /// else its result. There is nothing where the result is no number that a
    /// cell can hold.
    pub open spec fn binary_gives(&self, op: i8, a: Operand, b: Operand) -> Option<Cell> {
        let x = self.operand_value(a);
        let y = self.operand_value(b);
        if op == 5 && y == Some(0i32) {
            Some(Cell::Error)
        } else if x is Some && y is Some {
            match binary(op, x->Some_0, y->Some_0) {
                Some(v) => Some(Cell::Value(v)),
                None => None,
            }
        } else {
            Some(Cell::Error)
        }
    }

    /// What a cell holds that is given the number `number`, if any, or else
    /// the mark of an error.
    pub open spec fn marked(number: Option<i32>) -> Cell {
        match number {
            Some(v) => Cell::Value(v),
            None => Cell::Error,
        }
    }

    /// Whether `out` is what the formula `f` gives in the sheet: what the
    /// cell holds that a reference or a delay names; what the operator gives;
    /// what the function makes of the numbers of its range, or the mark of an
    /// error if a cell of the range has none.
    pub open spec fn gives(&self, f: Formula, out: Option<Cell>) -> bool {
        match f {
            Formula::Sleep(c) => out == Some(Self::marked(self.holds(c))),
            Formula::Reference(c) => out == Some(Self::marked(self.holds(c))),
            Formula::Binary(op, a, b) => out == self.binary_gives(op, a, b),
            Formula::Range(function, start, end) => self.range_gives(function, start, end, out),
        }
    }

    /// Whether `out` is what the function `function` gives for the cells
    /// between `start` and `end` in the sheet.
    pub open spec fn range_gives(
        &self,
        function: RangeFunction,
        start: Coord,
        end: Coord,
        out: Option<Cell>,
    ) -> bool {
        match listed_numbers(|c: Coord| self.holds(c), column_major(start, end)) {
            None => out == Some(Cell::Error),
            Some(numbers) => exists|r: Option<i32>| #[trigger]
                made_of(function, numbers, r) && out == Some(Self::marked(r)),
        }
    }

    /// What a formula gives depends only on what the cells hold that it
    /// reads.
    pub proof fn gives_alike(&self, other: &Spreadsheet, f: Formula, out: Option<Cell>)
        requires
            forall|c: Coord| f.reads(c) ==> #[trigger] self.holds(c) == other.holds(c),
            self.gives(f, out),
        ensures
            other.gives(f, out),
    {
        match f {
            Formula::Range(function, start, end) => {
                let cells = column_major(start, end);
                let first = |c: Coord| self.holds(c);
                let second = |c: Coord| other.holds(c);
                assert forall|k: int| 0 <= k < cells.len() implies first(#[trigger] cells[k])
                    == second(cells[k]) by {
                    column_major_within(start, end, k);
                    assert(f.reads(cells[k]));
                    assert(self.holds(cells[k]) == other.holds(cells[k]));
                }
                listed_alike(first, second, cells);
            },
            Formula::Binary(op, a, b) => {
                assert(self.operand_value(a) == other.operand_value(a));
                assert(self.operand_value(b) == other.operand_value(b));
            },
            _ => {},
        }
    }

    /// What a cell holds whose formula gave `out`: the mark of an error
    /// where the formula gave a result that no cell can hold.
    pub open spec fn held_of(out: Option<Cell>) -> Cell {
        match out {
            Some(cell) => cell,
            None => Cell::Error,
        }
    }

    /// Whether the cell `coord` holds what the formula `f` gives in the
    /// sheet.
    pub open spec fn yields(&self, coord: Coord, f: Formula) -> bool {
        exists|out: Option<Cell>| #[trigger] self.gives(f, out) && self.cell(coord) == Self::held_of(out)
    }

    /// Whether the cell `coord` holds what its formula gives in the sheet;
    /// a cell without a formula is settled as it is.
    pub open spec fn settled_at(&self, coord: Coord) -> bool {
        match self.formula(coord) {
            Some(f) => self.yields(coord, f),
            None => true,
        }
    }

    /// Whether every cell is settled.
    pub open spec fn consistent(&self) -> bool {
        forall|coord: Coord| #[trigger] self.settled_at(coord)
    }

    /// Whether every cell is settled but, at most, the cells that read
    /// `changed`.
    pub open spec fn consistent_but(&self, changed: Coord) -> bool {
        forall|coord: Coord| !self.depends(changed, coord) ==> #[trigger] self.settled_at(coord)
    }

    /// A settled cell is settled in every sheet in which it has the same
    /// formula and holds the same, and the cells that it reads hold the same.
    pub proof fn settled_alike(&self, after: &Spreadsheet, coord: Coord)
        requires
            after.formula(coord) == self.formula(coord),
            after.cell(coord) == self.cell(coord),
            forall|c: Coord| self.depends(c, coord) ==> #[trigger] self.holds(c) == after.holds(c),
            self.settled_at(coord),
        ensures
            after.settled_at(coord),
    {
        match self.formula(coord) {
            Some(f) => {
                let out = choose|out: Option<Cell>| #[trigger]
                    self.gives(f, out) && self.cell(coord) == Self::held_of(out);
                self.gives_alike(after, f, out);
            },
            None => {},
        }
    }

    /// A sheet that holds what a consistent sheet holds is consistent.
    pub proof fn same_stays_consistent(&self, before: &Spreadsheet)
        requires
            before.wf(),
            self.same_as(before),
            before.consistent(),
        ensures
            self.consistent(),
    {
        before.graph_follows_formulas();
        assert forall|coord: Coord| #[trigger] self.settled_at(coord) by {
            assert(before.settled_at(coord));
            assert(self.formula(coord) == before.formula(coord));
            if before.formula(coord) is Some {
                assert(self.cell(coord) == before.cell(coord));
                assert forall|c: Coord| before.depends(c, coord) implies #[trigger] before.holds(c)
                    == self.holds(c) by {
                    if self.inside(c) {
                        assert(self.cell(c) == before.cell(c));
                    }
                }
                before.settled_alike(self, coord);
            }
        }
    }

    /// A cell stays settled when another cell, which it does not read, is
    /// given another value.
    pub proof fn settled_stays(&self, after: &Spreadsheet, changed: Coord, coord: Coord)
        requires
            self.wf(),
            after.height() == self.height(),
            after.width() == self.width(),
            after.formula(coord) == self.formula(coord),
            forall|other: Coord|
                other != changed && self.inside(other) ==> #[trigger] after.cell(other)
                    == self.cell(other),
            coord != changed,
            !self.depends(changed, coord),
            self.settled_at(coord),
        ensures
            after.settled_at(coord),
    {
        self.graph_follows_formulas();
        assert forall|c: Coord| self.depends(c, coord) implies #[trigger] self.holds(c)
            == after.holds(c) by {
            if self.inside(c) {
                assert(after.cell(c) == self.cell(c));
            }
        }
        if self.formula(coord) is Some {
            assert(after.cell(coord) == self.cell(coord));
            self.settled_alike(after, coord);
        }
    }

    /// What an operand stands for.
    fn read_value(&self, operand: &Operand) -> (r: Option<i32>)
        requires
            self.wf(),
        ensures
            r == self.operand_value(*operand),
    {
        match operand {
            Operand::Literal(v) => Some(*v),
            Operand::Cell(c) => self.get_val(*c),
        }
    }

    /// What the formula `f` gives in the sheet. A delay asks `pause` to wait
    /// for as many seconds as its cell holds, if that is more than none.
    pub fn reckon<P: Fn(i32)>(&self, f: &Formula, pause: &P) -> (out: Option<Cell>)
        requires
            self.wf(),
            waits(pause),
        ensures
            self.gives(*f, out),
    {
        match f {
            Formula::Sleep(c) => {
                match self.get_val(*c) {
                    Some(seconds) => {
                        if seconds > 0 {
                            pause(seconds);
                        }
                        Some(Cell::Value(seconds))
                    },
                    None => Some(Cell::Error),
                }
            },
            Formula::Reference(c) => {
                match self.get_val(*c) {
                    Some(v) => Some(Cell::Value(v)),
                    None => Some(Cell::Error),
                }
            },
            Formula::Binary(op, a, b) => {
                let x = self.read_value(a);
                let y = self.read_value(b);
                match (x, y) {
                    (_, Some(0)) if *op == 5 => Some(Cell::Error),
                    (Some(x), Some(y)) => match eval_binary(*op, x, y) {
                        Some(v) => Some(Cell::Value(v)),
                        None => None,
                    },
                    _ => Some(Cell::Error),
                }
            },
            Formula::Range(function, start, end) => {
                let get = |c: (u16, u16)| -> (r: Option<i32>)
                    ensures
                        r == self.holds(c),
                    { self.get_val(c) };
                let r = range_function(*function, *start, *end, &get);
                proof {
                    let got = choose|got: Option<Seq<i32>>| #[trigger]
                        gathers(&get, column_major(*start, *end), got) && match got {
                            None => r is None,
                            Some(numbers) => made_of(*function, numbers, r),
                        };
                    gathers_what_is_held(
                        &get,
                        |c: Coord| self.holds(c),
                        column_major(*start, *end),
                        got,
                    );
                }
                match r {
                    Some(v) => Some(Cell::Value(v)),
                    None => Some(Cell::Error),
                }
            },
        }
    }

    /// The edges that the formulas would call for if the cell `coord` had
    /// the formula `f`, or none for no formula.
    pub open spec fn needed_with(&self, coord: Coord, f: Option<Formula>) -> Set<Edge> {
        Set::new(
            |e: Edge|
                if coord_of(e.1) == coord {
                    f matches Some(formula) && formula.reads(coord_of(e.0))
                } else {
                    self.depends(coord_of(e.0), coord_of(e.1))
                },
        )
    }

    /// How giving the cell `coord` the text `text` ends, as a code: 1 for a
    /// cell outside the sheet; 3 for a text that is refused; 5 for an operator
    /// whose result no cell can hold; 4 for a formula that would make the cell
    /// depend on itself; 0 otherwise.
    pub open spec fn verdict(&self, coord: Coord, text: Seq<char>) -> u8 {
        if !self.inside(coord) {
            1
        } else {
            match entry_of(text, self.height(), self.width()) {
                Entry::Refused => 3,
                Entry::Number(_) => 0,
                Entry::Pause(_) => 0,
                Entry::Formula(f) => if f matches Formula::Binary(op, a, b) && self.binary_gives(
                    op,
                    a,
                    b,
                ) is None {
                    5
                } else if connected(self.needed_with(coord, Some(f)), key(coord), key(coord)) {
                    4
                } else {
                    0
                },
            }
        }
    }

    /// Whether the sheet holds what `before` holds: the same in every cell,
    /// the same formulas, the same edges.
    pub open spec fn same_as(&self, before: &Spreadsheet) -> bool {
        &&& self.height() == before.height()
        &&& self.width() == before.width()
        &&& forall|coord: Coord| self.inside(coord) ==> #[trigger] self.cell(coord) == before.cell(coord)
        &&& forall|coord: Coord| #[trigger] self.formula(coord) == before.formula(coord)
        &&& self.edges() == before.edges()
    }

    /// Whether the sheet is `before` after the cell `coord` was given the
    /// text `text`, which ended with the code `code`. Whatever the code, the
    /// sheet keeps its size. With a code other than 0, the sheet is as it was.
    /// With the code 0, the cell has the formula that the text writes, or none
    /// for a number, and holds the number or what the formula gave; the other
    /// cells have the formulas that they had, and those without a formula
    /// hold what they held. Where every cell with a formula held what its
    /// formula gives, every such cell does so afterwards.
    pub open spec fn given(&self, before: &Spreadsheet, coord: Coord, text: Seq<char>, code: u8) -> bool {
        &&& self.height() == before.height()
        &&& self.width() == before.width()
        &&& code == before.verdict(coord, text)
        &&& before.consistent() ==> self.consistent()
        &&& code != 0 ==> self.same_as(before)
        &&& code == 0 ==> {
            &&& forall|other: Coord|
                other != coord ==> #[trigger] self.formula(other) == before.formula(other)
            &&& forall|other: Coord|
                other != coord && self.inside(other) && before.formula(other) is None
                    ==> #[trigger] self.cell(other) == before.cell(other)
            &&& match entry_of(text, before.height(), before.width()) {
                Entry::Number(v) => self.formula(coord) is None && self.cell(coord) == Cell::Value(
                    v,
                ),
                Entry::Pause(v) => self.formula(coord) is None && self.cell(coord) == Cell::Value(
                    v,
                ),
                Entry::Formula(f) => self.formula(coord) == Some(f) && before.gives(
                    f,
                    Some(self.cell(coord)),
                ),
                Entry::Refused => false,
            }
        }
    }

    /// Whether the sheet is `before` but for what the cells with a formula
    /// other than `start` hold.
    pub open spec fn recalculated_from(&self, before: &Spreadsheet, start: Coord) -> bool {
        &&& self.height() == before.height()
        &&& self.width() == before.width()
        &&& forall|coord: Coord| #[trigger] self.formula(coord) == before.formula(coord)
        &&& self.edges() == before.edges()
        &&& forall|coord: Coord|
            self.inside(coord) && (coord == start || before.formula(coord) is None)
                ==> #[trigger] self.cell(coord) == before.cell(coord)
    }

    /// Puts `value` into the cell `coord`.
    fn put(&mut self, coord: Coord, value: Cell)
        requires
            old(self).wf(),
            old(self).inside(coord),
        ensures
            final(self).wf(),
            final(self).rows == old(self).rows,
            final(self).cols == old(self).cols,
            final(self).formulas == old(self).formulas,
            final(self).graph == old(self).graph,
            final(self).cell(coord) == value,
            forall|other: Coord|
                other != coord && final(self).inside(other) ==> #[trigger] final(self).cell(other)
                    == old(self).cell(other),
    {
        let r = coord.1 as usize;
        let c = coord.0 as usize;
        let mut row: Vec<Cell> = Vec::new();
        core::mem::swap(&mut self.cells[r], &mut row);
        row.set(c, value);
        core::mem::swap(&mut self.cells[r], &mut row);
        proof {
            assert forall|i: int| 0 <= i <= self.rows implies (#[trigger] self.cells@[i])@.len()
                == self.cols + 1 by {
                if i != r {
                    assert(self.cells@[i] == old(self).cells@[i]);
                }
            }
            assert(self.needed() =~= old(self).needed());
            assert forall|other: Coord|
                other != coord && self.inside(other) implies #[trigger] self.cell(other) == old(
                self,
            ).cell(other) by {
                if other.1 != coord.1 {
                    assert(self.cells@[other.1 as int] == old(self).cells@[other.1 as int]);
                }
            }
        }
    }

    /// Evaluates again every cell that depends on `start`, each after the
    /// cells that it reads; `start` itself is left as it is. A cell whose
    /// operator gives a result that no cell can hold is marked as in error.
    /// Where every cell that does not read `start` was settled, every cell is
    /// settled afterwards.
    pub fn recalc_dependents<P: Fn(i32)>(&mut self, start: (u16, u16), pause: &P)
        requires
            old(self).wf(),
            waits(pause),
        ensures
            final(self).wf(),
            final(self).recalculated_from(old(self), start),
            old(self).consistent_but(start) ==> final(self).consistent(),
    {
        proof {
            self.graph.lists_are_edges();
        }
        let ghost sound = old(self).consistent_but(start);
        let k = key_of(start);
        let s = match self.graph.place(k) {
            Some(s) => s,
            None => {
                proof {
                    assert forall|c: Coord| sound implies #[trigger] self.settled_at(c) by {
                        if self.depends(start, c) {
                            keys_and_cells(start, k);
                            keys_and_cells(c, key(c));
                            assert(self.needed().contains((k, key(c))));
                        }
                    }
                }
                return ;
            },
        };
        let (order, members, counts) = self.graph.order_from(s);
        let ghost cells = self.graph.cells();
        let ghost lists = self.graph.lists();
        let mut i: usize = 1;
        proof {
            assert forall|c: Coord|
                sound && !awaited(cells, members@, earlier(order@, 1), key(c))
                    implies #[trigger] self.settled_at(c) by {
                if self.depends(start, c) {
                    keys_and_cells(start, k);
                    keys_and_cells(c, key(c));
                    assert(self.needed().contains((k, key(c))));
                    assert(lists[s as int].contains(key(c)));
                    let at = choose|at: int| 0 <= at < cells.len() && #[trigger] cells[at] == key(c);
                    assert(members@.contains(s as int) && lists[s as int].contains(cells[at]));
                    assert(members@.contains(at));
                    assert(listed(order@, at, 1));
                    let j = choose|j: int| 0 <= j < 1 && j < order@.len() && #[trigger] order@[j] == at;
                    assert(at == s);
                    edge_connects(self.graph.edges(), k, k);
                }
            }
        }
        while i < order.len()
            invariant
                self.wf(),
                waits(pause),
                self.graph == old(self).graph,
                self.formulas == old(self).formulas,
                self.rows == old(self).rows,
                self.cols == old(self).cols,
                cells == self.graph.cells(),
                lists == self.graph.lists(),
                1 <= i,
                self.graph.sorted_from(s as int, members@, order@),
                self.graph.spread_from(s as int, members@, counts@),
                s < self.graph.cells().len(),
                self.graph.cells()[s as int] == k,
                k == key(start),
                forall|coord: Coord|
                    self.inside(coord) && (coord == start || old(self).formula(coord) is None)
                        ==> #[trigger] self.cell(coord) == old(self).cell(coord),
                forall|c: Coord|
                    sound && !awaited(cells, members@, earlier(order@, i as int), key(c))
                        ==> #[trigger] self.settled_at(c),
            decreases order@.len() - i,
        {
            proof {
                self.graph.lists_are_edges();
            }
            assert(members@.contains(order@[i as int] as int));
            let top = order[i];
            let at = self.graph.cell_at(top);
            assert(at != k) by {
                if at == k {
                    self.graph.cells_differ(order@[i as int] as int, s as int);
                }
            }
            let coord = cell_of_key(at);
            proof {
                keys_and_cells(coord, at);
            }
            let ghost before = *self;
            let ghost mut gave: Option<Cell> = None;
            let value = match self.formulas.get(at) {
                Some(f) => {
                    let out = self.reckon(f, pause);
                    proof {
                        gave = out;
                    }
                    match out {
                        Some(value) => Some(value),
                        None => Some(Cell::Error),
                    }
                },
                None => None,
            };
            match value {
                Some(value) => {
                    proof {
                        assert(self.formulas@.contains_key(at));
                        assert(self.inside(coord));
                        assert(old(self).formula(coord) is Some);
                        keys_differ(coord, start);
                        assert(coord != start);
                    }
                    self.put(coord, value);
                    proof {
                        assert forall|c: Coord|
                            self.inside(c) && (c == start || old(self).formula(c) is None)
                                implies #[trigger] self.cell(c) == old(self).cell(c) by {
                            assert(c != coord);
                            assert(self.cell(c) == before.cell(c));
                            assert(before.inside(c));
                        }
                    }
                },
                None => {},
            }
            proof {
                assert forall|c: Coord|
                    sound && !awaited(cells, members@, earlier(order@, i + 1), key(c))
                        implies #[trigger] self.settled_at(c) by {
                    if c == coord {
                        match before.formula(coord) {
                            Some(f) => {
                                assert(before.gives(f, gave));
                                assert forall|r: Coord| f.reads(r) implies #[trigger] before.holds(r)
                                    == self.holds(r) by {
                                    if r == coord {
                                        assert(before.needed().contains((at, at)));
                                        edge_connects(before.graph.edges(), at, at);
                                    }
                                    if self.inside(r) {
                                        assert(self.cell(r) == before.cell(r));
                                    }
                                }
                                before.gives_alike(self, f, gave);
                                assert(self.cell(coord) == Self::held_of(gave));
                            },
                            None => {},
                        }
                    } else {
                        keys_differ(c, coord);
                        assert(!awaited(cells, members@, earlier(order@, i as int), key(c))) by {
                            if awaited(cells, members@, earlier(order@, i as int), key(c)) {
                                let x = choose|x: int|
                                    0 <= x < cells.len() && #[trigger] cells[x] == key(c)
                                        && members@.contains(x) && !earlier(
                                        order@,
                                        i as int,
                                    ).contains(x);
                                assert(x != top);
                                assert(!listed(order@, x, i + 1)) by {
                                    if listed(order@, x, i + 1) {
                                        let j = choose|j: int|
                                            0 <= j < i + 1 && j < order@.len() && #[trigger] order@[j]
                                                == x;
                                        assert(j < i);
                                        assert(listed(order@, x, i as int));
                                    }
                                }
                                assert(cells[x] == key(c) && members@.contains(x) && !earlier(
                                    order@,
                                    i + 1,
                                ).contains(x));
                            }
                        }
                        assert(before.settled_at(c));
                        assert(!before.depends(coord, c)) by {
                            if before.depends(coord, c) {
                                keys_and_cells(c, key(c));
                                assert(before.needed().contains((at, key(c))));
                                assert(lists[top as int].contains(key(c)));
                                let x = choose|x: int|
                                    0 <= x < cells.len() && #[trigger] cells[x] == key(c);
                                assert(members@.contains(top as int) && lists[top as int].contains(
                                    cells[x],
                                ));
                                assert(members@.contains(x));
                                assert(listed(order@, x, i as int)) by {
                                    if !listed(order@, x, i as int) {
                                        assert(cells[x] == key(c) && members@.contains(x)
                                            && !earlier(order@, i as int).contains(x));
                                    }
                                }
                                let j = choose|j: int|
                                    0 <= j < i && j < order@.len() && #[trigger] order@[j] == x;
                                assert(members@.contains(top as int) && lists[top as int].contains(
                                    cells[order@[j] as int],
                                ));
                                assert(listed(order@, top as int, j));
                                let y = choose|y: int|
                                    0 <= y < j && y < order@.len() && #[trigger] order@[y] == top;
                                assert(order@[y] == order@[i as int]);
                            }
                        }
                        if before.formula(coord) is Some {
                            before.settled_stays(self, coord, c);
                        }
                    }
                }
            }
            i += 1;
        }
        proof {
            assert forall|c: Coord| sound implies #[trigger] self.settled_at(c) by {
                if awaited(cells, members@, earlier(order@, i as int), key(c)) {
                    let x = choose|x: int|
                        0 <= x < cells.len() && #[trigger] cells[x] == key(c) && members@.contains(x)
                            && !earlier(order@, i as int).contains(x);
                    assert(listed(order@, x, order@.len() as int));
                }
            }
        }
    }

    /// Whether a path of one edge or more leads from the cell `start_cell`
    /// back to it along the edges of the sheet. The sheet need not be sound:
    /// its graph may hold the edges of a formula that is being tried. In a
    /// sound sheet no cell is found to depend on itself.
    pub fn has_cycle_from(&self, start_cell: (u16, u16)) -> (found: bool)
        requires
            self.linked(),
        ensures
            found == connected(self.edges(), key(start_cell), key(start_cell)),
            self.wf() ==> !found,
    {
        self.graph.returns_to(key_of(start_cell))
    }

    /// Gives the cell `coord` what the text `expr` writes: a number or a
    /// formula. A text that is refused, a formula that would make the cell
    /// depend on itself, and an operator whose result no cell can hold change
    /// nothing. Otherwise the cell is given its value, and the cells that
    /// depend on it are evaluated again. A delay asks `pause` to wait.
    pub fn set_cell<P: Fn(i32)>(&mut self, coord: (u16, u16), expr: &str, pause: &P) -> (code: u8)
        requires
            old(self).wf(),
            waits(pause),
        ensures
            final(self).wf(),
            final(self).given(old(self), coord, expr@, code),
    {
        if coord.1 as usize > self.rows || coord.0 as usize > self.cols {
            return 1;
        }
        let entry = read_entry(expr, self.rows, self.cols);
        let k = key_of(coord);
        proof {
            keys_and_cells(coord, k);
        }
        let formula: Option<Formula> = match entry {
            Entry::Refused => {
                return 3;
            },
            Entry::Number(_) => None,
            Entry::Pause(_) => None,
            Entry::Formula(f) => Some(f),
        };
        let ready: Option<Cell> = match entry {
            Entry::Number(v) => Some(Cell::Value(v)),
            Entry::Pause(v) => Some(Cell::Value(v)),
            Entry::Formula(Formula::Binary(op, a, b)) => {
                match self.reckon(&Formula::Binary(op, a, b), pause) {
                    None => {
                        return 5;
                    },
                    Some(value) => Some(value),
                }
            },
            _ => None,
        };
        let before: Vec<AbsCell> = match self.formulas.get(k) {
            Some(f) => f.keys(),
            None => Vec::new(),
        };
        let after: Vec<AbsCell> = match &formula {
            Some(f) => f.keys(),
            None => Vec::new(),
        };
        self.graph.remove_edges_to(k, &before);
        self.graph.add_edges_to(k, &after);
        let ghost wanted = old(self).needed_with(coord, formula);
        proof {
            assert forall|e: Edge| self.graph.edges().contains(e) <==> wanted.contains(e) by {
                assert(old(self).needed().contains(e) <==> old(self).depends(
                    coord_of(e.0),
                    coord_of(e.1),
                ));
                keys_and_cells(coord_of(e.1), e.1);
                keys_and_cells(coord_of(e.0), e.0);
                if e.1 == k {
                    assert(coord_of(e.1) == coord);
                } else {
                    assert(coord_of(e.1) != coord) by {
                        if coord_of(e.1) == coord {
                            assert(key(coord_of(e.1)) == k);
                        }
                    }
                }
            }
            assert(self.graph.edges() =~= wanted);
        }
        if formula.is_some() && self.has_cycle_from(coord) {
            self.graph.remove_edges_to(k, &after);
            self.graph.add_edges_to(k, &before);
            proof {
                assert forall|e: Edge| self.graph.edges().contains(e) <==> old(
                    self,
                ).graph.edges().contains(e) by {
                    assert(old(self).needed().contains(e) <==> old(self).depends(
                        coord_of(e.0),
                        coord_of(e.1),
                    ));
                    keys_and_cells(coord_of(e.1), e.1);
                    keys_and_cells(coord_of(e.0), e.0);
                    if e.1 == k {
                        assert(coord_of(e.1) == coord);
                    }
                }
                assert(self.graph.edges() =~= old(self).graph.edges());
                assert(self.needed() =~= old(self).needed());
                assert forall|c: Coord| old(self).consistent() implies #[trigger] self.settled_at(
                    c,
                ) by {
                    assert(old(self).settled_at(c));
                    old(self).settled_alike(self, c);
                }
            }
            return 4;
        }
        match formula {
            Some(f) => {
                self.formulas.insert(k, f);
            },
            None => {
                let _ = self.formulas.remove(k);
            },
        }
        proof {
            assert forall|other: Coord| #[trigger] self.formula(other) == if other == coord {
                formula
            } else {
                old(self).formula(other)
            } by {
                keys_differ(other, coord);
            }
            assert forall|e: Edge| self.needed().contains(e) <==> wanted.contains(e) by {
                let cell = coord_of(e.1);
                assert(self.formula(cell) == if cell == coord {
                    formula
                } else {
                    old(self).formula(cell)
                });
            }
            assert(self.needed() =~= wanted);
            assert forall|x: AbsCell| #[trigger] self.formulas@.contains_key(x) implies self.inside(
                coord_of(x),
            ) by {
                if x != k {
                    assert(old(self).formulas@.contains_key(x));
                }
            }
            if formula is Some {
                assert forall|e: Edge| #[trigger]
                    wanted.contains(e) && !old(self).graph.edges().contains(e) implies e.1 == k by {
                    if e.1 != k {
                        keys_and_cells(coord_of(e.1), e.1);
                        assert(old(self).needed().contains(e));
                    }
                }
                edges_to_one_cell_acyclic(old(self).graph.edges(), wanted, k);
            } else {
                assert forall|e: Edge| wanted.contains(e) implies old(self).graph.edges().contains(
                    e,
                ) by {
                    assert(old(self).needed().contains(e));
                }
                fewer_edges_acyclic(wanted, old(self).graph.edges());
            }
        }
        let value = match ready {
            Some(value) => value,
            None => match &formula {
                Some(f) => match self.reckon(f, pause) {
                    Some(value) => value,
                    None => Cell::Error,
                },
                None => Cell::Error,
            },
        };
        match entry {
            Entry::Pause(seconds) => {
                if seconds > 0 {
                    pause(seconds);
                }
            },
            _ => {},
        }
        let ghost linked = *self;
        proof {
            assert forall|c: Coord| #[trigger] linked.holds(c) == old(self).holds(c) by {}
            assert forall|c: Coord| #[trigger] old(self).holds(c) == linked.holds(c) by {}
            match formula {
                Some(f) => {
                    if ready is Some {
                        assert(old(self).gives(f, Some(value)));
                    } else {
                        assert(linked.gives(f, Some(value)));
                        linked.gives_alike(old(self), f, Some(value));
                    }
                },
                None => {},
            }
        }
        self.put(coord, value);
        let ghost written = *self;
        proof {
            assert forall|c: Coord|
                old(self).consistent() && !written.depends(coord, c)
                    implies #[trigger] written.settled_at(c) by {
                if c == coord {
                    match formula {
                        Some(f) => {
                            assert forall|r: Coord| f.reads(r) implies #[trigger] old(self).holds(r)
                                == written.holds(r) by {
                                if written.inside(r) {
                                    assert(written.cell(r) == linked.cell(r));
                                }
                            }
                            old(self).gives_alike(&written, f, Some(value));
                            assert(written.cell(coord) == Self::held_of(Some(value)));
                        },
                        None => {},
                    }
                } else {
                    assert(written.formula(c) == old(self).formula(c));
                    assert(old(self).settled_at(c));
                    old(self).settled_stays(&written, coord, c);
                }
            }
        }
        self.recalc_dependents(coord, pause);
        proof {
            assert(self.cell(coord) == written.cell(coord));
            assert forall|other: Coord| other != coord implies #[trigger] self.formula(other)
                == old(self).formula(other) by {
                assert(self.formula(other) == written.formula(other));
                assert(written.formula(other) == linked.formula(other));
            }
            assert forall|other: Coord|
                other != coord && self.inside(other) && old(self).formula(other) is None
                    implies #[trigger] self.cell(other) == old(self).cell(other) by {
                assert(written.formula(other) == linked.formula(other));
                assert(linked.formula(other) == old(self).formula(other));
                assert(self.cell(other) == written.cell(other));
                assert(written.cell(other) == linked.cell(other));
            }
            assert(self.formula(coord) == written.formula(coord));
            assert(written.formula(coord) == linked.formula(coord));
        }
        0
    }

    /// The formula of the cell `coord`, if it has one.
    pub fn formula_of(&self, coord: (u16, u16)) -> (f: Option<Formula>)
        requires
            self.wf(),
        ensures
            f == self.formula(coord),
    {
        match self.formulas.get(key_of(coord)) {
            Some(f) => Some(*f),
            None => None,
        }
    }

    /// The letters of the columns from `from` to `to`, each in a column of
    /// 8.
    pub open spec fn letters_text(from: int, to: int) -> Seq<char>
        decreases to - from + 1,
    {
        if from > to {
            Seq::empty()
        } else {
            Self::letters_text(from, to - 1) + padded(column_letters(to as nat), 8)
        }
    }

    /// What the cells of row `r` from column `from` to column `to` hold, as
    /// they are shown.
    pub open spec fn cells_text(&self, r: int, from: int, to: int) -> Seq<char>
        decreases to - from + 1,
    {
        if from > to {
            Seq::empty()
        } else {
            self.cells_text(r, from, to - 1) + shown(self.cell((to as u16, r as u16)))
        }
    }

    /// The lines of the rows from `from_row` to `to_row`: the number of the
    /// row in a column of 3, a blank, and the cells from column `from` to
    /// column `to`.
    pub open spec fn lines_text(&self, from_row: int, to_row: int, from: int, to: int) -> Seq<char>
        decreases to_row - from_row + 1,
    {
        if from_row > to_row {
            Seq::empty()
        } else {
            self.lines_text(from_row, to_row - 1, from, to) + padded(decimal(to_row as nat), 3)
                + seq![' '] + self.cells_text(to_row, from, to) + seq!['\n']
        }
    }

    /// The sheet as the terminal shows it: a line with the letters of the
    /// columns, and a line for each row. The columns are the `max_cols` that
    /// follow `start_col`, the rows the `max_rows` that follow `start_row`, as
    /// far as the sheet has them.
    pub open spec fn display(
        &self,
        start_row: usize,
        start_col: usize,
        max_rows: usize,
        max_cols: usize,
    ) -> Seq<char> {
        let last_col = last_shown(start_col as int, max_cols as int, self.width() as int);
        let last_row = last_shown(start_row as int, max_rows as int, self.height() as int);
        seq![' ', ' ', ' ', ' '] + Self::letters_text(start_col + 1, last_col) + seq!['\n']
            + self.lines_text(start_row + 1, last_row, start_col + 1, last_col)
    }

    /// The sheet as the terminal shows it.
    pub fn display_to(&self, start_row: usize, start_col: usize, max_rows: usize, max_cols: usize) -> (text:
        String)
        requires
            self.wf(),
        ensures
            text@ == self.display(start_row, start_col, max_rows, max_cols),
    {
        let last_col: usize = if start_col >= self.cols || max_cols >= self.cols - start_col {
            self.cols
        } else {
            start_col + max_cols
        };
        let last_row: usize = if start_row >= self.rows || max_rows >= self.rows - start_row {
            self.rows
        } else {
            start_row + max_rows
        };
        assert(last_col == last_shown(start_col as int, max_cols as int, self.width() as int));
        assert(last_row == last_shown(start_row as int, max_rows as int, self.height() as int));
        let mut out: Vec<char> = Vec::new();
        out.push(' ');
        out.push(' ');
        out.push(' ');
        out.push(' ');
        let ghost head = out@;
        assert(head =~= seq![' ', ' ', ' ', ' ']);
        if start_col < self.cols {
            let mut c: usize = start_col + 1;
            while c <= last_col
                invariant
                    self.wf(),
                    start_col + 1 <= c <= last_col + 1,
                    last_col <= self.cols,
                    out@ == head + Self::letters_text(start_col + 1, c - 1),
                decreases last_col + 1 - c,
            {
                let mut letters: Vec<char> = Vec::new();
                push_column_letters(&mut letters, c as u32);
                push_padded(&mut out, &letters, 8);
                assert(letters@ =~= column_letters(c as nat));
                assert(out@ =~= head + Self::letters_text(start_col + 1, c as int));
                c += 1;
            }
        }
        out.push('\n');
        let ghost top = out@;
        assert(top =~= head + Self::letters_text(start_col + 1, last_col as int) + seq!['\n']);
        if start_row < self.rows {
            let mut r: usize = start_row + 1;
            while r <= last_row
                invariant
                    self.wf(),
                    start_row + 1 <= r <= last_row + 1,
                    last_row <= self.rows,
                    last_col <= self.cols,
                    start_col < self.cols ==> start_col <= last_col,
                    out@ == top + self.lines_text(
                        start_row + 1,
                        r - 1,
                        start_col + 1,
                        last_col as int,
                    ),
                decreases last_row + 1 - r,
            {
                let ghost above = out@;
                let mut number: Vec<char> = Vec::new();
                push_decimal(&mut number, r as u32);
                push_padded(&mut out, &number, 3);
                out.push(' ');
                let ghost start = out@;
                assert(number@ =~= decimal(r as nat));
                assert(start =~= above + padded(decimal(r as nat), 3) + seq![' ']);
                if start_col < self.cols {
                    let mut c: usize = start_col + 1;
                    while c <= last_col
                        invariant
                            self.wf(),
                            start_col + 1 <= c <= last_col + 1,
                            last_col <= self.cols,
                            r <= self.rows,
                            out@ == start + self.cells_text(r as int, start_col + 1, c - 1),
                        decreases last_col + 1 - c,
                    {
                        let text = match &self.cells[r][c] {
                            Cell::Value(v) => signed_numeral(*v),
                            Cell::Error => {
                                let mut err: Vec<char> = Vec::new();
                                err.push('E');
                                err.push('R');
                                err.push('R');
                                assert(err@ =~= seq!['E', 'R', 'R']);
                                err
                            },
                        };
                        push_padded(&mut out, &text, 8);
                        assert(text@ == match self.cell((c as u16, r as u16)) {
                            Cell::Value(v) => signed(v as int),
                            Cell::Error => seq!['E', 'R', 'R'],
                        });
                        assert(out@ =~= start + self.cells_text(r as int, start_col + 1, c as int));
                        c += 1;
                    }
                }
                out.push('\n');
                assert(out@ =~= top + self.lines_text(
                    start_row + 1,
                    r as int,
                    start_col + 1,
                    last_col as int,
                ));
                r += 1;
            }
        }
        from_chars(&out)
    }
}

} // verus!
