//! The grammar of formulas and the parser that follows it.
//!
//! A formula is a sum of products of terms; a term is a number, a reference
//! to a cell, a function of a range, a delay or a formula in brackets.
//! Operators of one level group to the left. Blanks may stand between the
//! tokens and before and after the whole.
use vstd::prelude::*;
use crate::common::expression::{
    sleep_name, CellRange, Expression, Operator, RangeFunction, Syntax,
};
use crate::common::number::{ask_literal, serves, Reply, Request};
use crate::common::structs::{cell_of, fits, read_cell, AbsCell, RelCell};
use crate::common::text::{
    char_is_digit, char_is_letter, is_digit, is_letter, is_space, same_text, scan, span, span_is_run,
    to_chars,
    CharClass, ParseError,
};

verus! {

/// A parser for the formulas of a grid of a given size.
#[derive(Debug, Clone, Copy)]
pub struct FormulaParser {
    max_rows: u16,
    max_cols: u16,
}

/// What the grammar derives from a position: a tree and the position after
/// it, or the reason why it derives nothing.
pub type Derived = Result<(Syntax, int), ParseError>;

/// The range function of a name.
pub open spec fn function_named(name: Seq<char>) -> Option<RangeFunction> {
    if name == RangeFunction::Min.name() {
        Some(RangeFunction::Min)
    } else if name == RangeFunction::Max.name() {
        Some(RangeFunction::Max)
    } else if name == RangeFunction::Avg.name() {
        Some(RangeFunction::Avg)
    } else if name == RangeFunction::Sum.name() {
        Some(RangeFunction::Sum)
    } else if name == RangeFunction::Stdev.name() {
        Some(RangeFunction::Stdev)
    } else {
        None
    }
}

/// The position after a closing bracket that follows `p`, blanks aside.
pub open spec fn closing(s: Seq<char>, p: int) -> Option<int> {
    let q = span(s, p, CharClass::Space);
    if 0 <= q < s.len() && s[q] == ')' {
        Some(q + 1)
    } else {
        None
    }
}

/// A number at `p`: an optional minus sign, digits, and a point followed by
/// digits, with at least one digit in all. A point that no digit follows
/// does not belong to the number.
pub open spec fn number(s: Seq<char>, p: int) -> Derived {
    let a = if 0 <= p < s.len() && s[p] == '-' {
        p + 1
    } else {
        p
    };
    let b = span(s, a, CharClass::Digit);
    let c = if 0 <= b && b + 1 < s.len() && s[b] == '.' && is_digit(s[b + 1]) {
        span(s, b + 1, CharClass::Digit)
    } else {
        b
    };
    if 0 <= p <= a < c <= s.len() {
        Ok((Syntax::Number(s.subrange(p, c)), c))
    } else {
        Err(ParseError::InvalidFormula)
    }
}

/// The range function that the characters of `s` from `from` to `to` name.
fn read_function(s: &Vec<char>, from: usize, to: usize) -> (f: Option<RangeFunction>)
    requires
        from <= to <= s.len(),
    ensures
        f == function_named(s@.subrange(from as int, to as int)),
{
    let min = vec!['M', 'I', 'N'];
    let max = vec!['M', 'A', 'X'];
    let avg = vec!['A', 'V', 'G'];
    let sum = vec!['S', 'U', 'M'];
    let stdev = vec!['S', 'T', 'D', 'E', 'V'];
    assert(min@ =~= RangeFunction::Min.name());
    assert(max@ =~= RangeFunction::Max.name());
    assert(avg@ =~= RangeFunction::Avg.name());
    assert(sum@ =~= RangeFunction::Sum.name());
    assert(stdev@ =~= RangeFunction::Stdev.name());
    if same_text(s, from, to, &min) {
        Some(RangeFunction::Min)
    } else if same_text(s, from, to, &max) {
        Some(RangeFunction::Max)
    } else if same_text(s, from, to, &avg) {
        Some(RangeFunction::Avg)
    } else if same_text(s, from, to, &sum) {
        Some(RangeFunction::Sum)
    } else if same_text(s, from, to, &stdev) {
        Some(RangeFunction::Stdev)
    } else {
        None
    }
}

/// Whether the characters of `s` from `from` to `to` are the name of the
/// delay.
fn reads_sleep(s: &Vec<char>, from: usize, to: usize) -> (b: bool)
    requires
        from <= to <= s.len(),
    ensures
        b == (s@.subrange(from as int, to as int) == sleep_name()),
{
    let sleep = vec!['S', 'L', 'E', 'E', 'P'];
    assert(sleep@ =~= sleep_name());
    same_text(s, from, to, &sleep)
}

/// The position after a closing bracket that follows `p`, blanks aside.
fn read_closing(s: &Vec<char>, p: usize) -> (end: Option<usize>)
    requires
        p <= s.len(),
    ensures
        match closing(s@, p as int) {
            Some(q) => end == Some(q as usize) && p < q <= s.len(),
            None => end is None,
        },
{
    let q = scan(s, p, CharClass::Space);
    if q < s.len() && s[q] == ')' {
        Some(q + 1)
    } else {
        None
    }
}

/// Whether the parser's answer is what the grammar derives: the same
/// refusal, or an expression of the derived shape that ends where the
/// derivation ends, with the numbers that `host` read from the literals.
pub open spec fn agrees<H: Fn(Request) -> Reply>(
    host: &H,
    derived: Derived,
    got: Result<(Expression, usize), ParseError>,
) -> bool {
    match derived {
        Err(e) => got == Err::<(Expression, usize), ParseError>(e),
        Ok((tree, q)) => got matches Ok((expression, end)) && end == q && tree.read_as(
            host,
            expression,
        ),
    }
}

impl FormulaParser {
    /// The number of rows of the grid.
    pub closed spec fn rows(self) -> u16 {
        self.max_rows
    }

    /// The number of columns of the grid.
    pub closed spec fn cols(self) -> u16 {
        self.max_cols
    }

    /// A parser for a grid of `max_rows` rows and `max_cols` columns.
    pub fn new(max_rows: u16, max_cols: u16) -> (parser: Self)
        ensures
            parser.rows() == max_rows,
            parser.cols() == max_cols,
    {
        FormulaParser { max_rows, max_cols }
    }

    /// The way from `origin` to `cell`, where `cell` lies in the grid.
    pub open spec fn relative(self, cell: AbsCell, origin: AbsCell) -> Option<RelCell> {
        if cell.in_grid(self.rows(), self.cols()) && fits(cell.row - origin.row) && fits(
            cell.col - origin.col,
        ) {
            Some(RelCell { row: (cell.row - origin.row) as i16, col: (cell.col - origin.col) as i16 })
        } else {
            None
        }
    }

    /// A corner of a range at `p`, blanks aside: the label of a cell of the
    /// grid.
    pub open spec fn corner(self, s: Seq<char>, p: int, origin: AbsCell) -> Result<
        (RelCell, int),
        ParseError,
    > {
        let a = span(s, p, CharClass::Space);
        let k = span(s, a, CharClass::Letter);
        let m = span(s, k, CharClass::Digit);
        if 0 <= a < k < m <= s.len() {
            match cell_of(s.subrange(a, k), s.subrange(k, m)) {
                None => Err(ParseError::InvalidCell),
                Some(cell) => match self.relative(cell, origin) {
                    None => Err(ParseError::InvalidRange),
                    Some(rel) => Ok((rel, m)),
                },
            }
        } else {
            Err(ParseError::InvalidFormula)
        }
    }

    /// The arguments of a range function from `p`, after its opening bracket:
    /// two corners with a colon between, in order, and the closing bracket.
    pub open spec fn range_arguments(self, s: Seq<char>, p: int, origin: AbsCell) -> Result<
        (CellRange, int),
        ParseError,
    > {
        match self.corner(s, p, origin) {
            Err(e) => Err(e),
            Ok((top_left, q)) => {
                let c = span(s, q, CharClass::Space);
                if 0 <= c < s.len() && s[c] == ':' {
                    match self.corner(s, c + 1, origin) {
                        Err(e) => Err(e),
                        Ok((bottom_right, r)) => match closing(s, r) {
                            None => Err(ParseError::InvalidFormula),
                            Some(end) => {
                                let range = CellRange { top_left, bottom_right };
                                if range.ordered() {
                                    Ok((range, end))
                                } else {
                                    Err(ParseError::InvalidRange)
                                }
                            },
                        },
                    }
                } else {
                    Err(ParseError::InvalidFormula)
                }
            },
        }
    }

    /// A term at `p`, blanks aside: a formula in brackets, a reference, a
    /// function of a range, a delay, or a number.
    pub open spec fn term(self, s: Seq<char>, p: int, origin: AbsCell) -> Derived
        decreases s.len() - p, 0nat,
    {
        if p < 0 || p >= s.len() {
            Err(ParseError::InvalidFormula)
        } else if is_space(s[p]) {
            self.term(s, p + 1, origin)
        } else if s[p] == '(' {
            match self.expression(s, p + 1, origin) {
                Err(e) => Err(e),
                Ok((tree, q)) => match closing(s, q) {
                    None => Err(ParseError::InvalidFormula),
                    Some(end) => Ok((tree, end)),
                },
            }
        } else if is_letter(s[p]) {
            let k = span(s, p, CharClass::Letter);
            if 0 <= k < s.len() && is_digit(s[k]) {
                let m = span(s, k, CharClass::Digit);
                match cell_of(s.subrange(p, k), s.subrange(k, m)) {
                    None => Err(ParseError::InvalidCell),
                    Some(cell) => match self.relative(cell, origin) {
                        None => Err(ParseError::InvalidCell),
                        Some(rel) => Ok((Syntax::Cell(rel), m)),
                    },
                }
            } else {
                let q = span(s, k, CharClass::Space);
                if p <= q < s.len() && s[q] == '(' {
                    self.call(s, p, k, q + 1, origin)
                } else {
                    Err(ParseError::InvalidFormula)
                }
            }
        } else {
            number(s, p)
        }
    }

    /// The function named by the letters from `from` to `to`, applied to
    /// what follows its opening bracket at `p`.
    pub open spec fn call(self, s: Seq<char>, from: int, to: int, p: int, origin: AbsCell) -> Derived
        decreases s.len() - p, 3nat,
    {
        let name = s.subrange(from, to);
        if name == sleep_name() {
            match self.expression(s, p, origin) {
                Err(e) => Err(e),
                Ok((tree, q)) => match closing(s, q) {
                    None => Err(ParseError::InvalidFormula),
                    Some(end) => Ok((Syntax::Sleep(Box::new(tree)), end)),
                },
            }
        } else {
            match function_named(name) {
                None => Err(ParseError::InvalidFormula),
                Some(f) => match self.range_arguments(s, p, origin) {
                    Err(e) => Err(e),
                    Ok((range, end)) => Ok((Syntax::RangeFunction(f, range), end)),
                },
            }
        }
    }

    /// A product at `p`: a term and what multiplies and divides it.
    pub open spec fn factor(self, s: Seq<char>, p: int, origin: AbsCell) -> Derived
        decreases s.len() - p, 1nat,
    {
        match self.term(s, p, origin) {
            Err(e) => Err(e),
            Ok((tree, q)) => if p < q <= s.len() {
                self.factor_tail(s, q, tree, origin)
            } else {
                Err(ParseError::InvalidFormula)
            },
        }
    }

    /// The rest of a product whose terms so far make up `left`.
    pub open spec fn factor_tail(self, s: Seq<char>, p: int, left: Syntax, origin: AbsCell) -> Derived
        decreases s.len() - p, 0nat,
    {
        if p < 0 || p >= s.len() {
            Ok((left, p))
        } else if is_space(s[p]) {
            self.factor_tail(s, p + 1, left, origin)
        } else if s[p] == '*' || s[p] == '/' {
            let op = if s[p] == '*' {
                Operator::Multiply
            } else {
                Operator::Divide
            };
            match self.term(s, p + 1, origin) {
                Err(e) => Err(e),
                Ok((right, q)) => if p < q <= s.len() {
                    self.factor_tail(
                        s,
                        q,
                        Syntax::BinaryOp(Box::new(left), op, Box::new(right)),
                        origin,
                    )
                } else {
                    Err(ParseError::InvalidFormula)
                },
            }
        } else {
            Ok((left, p))
        }
    }

    /// A sum at `p`: a product and what is added to it and subtracted from
    /// it.
    pub open spec fn expression(self, s: Seq<char>, p: int, origin: AbsCell) -> Derived
        decreases s.len() - p, 2nat,
    {
        match self.factor(s, p, origin) {
            Err(e) => Err(e),
            Ok((tree, q)) => if p < q <= s.len() {
                self.expression_tail(s, q, tree, origin)
            } else {
                Err(ParseError::InvalidFormula)
            },
        }
    }

    /// The rest of a sum whose products so far make up `left`.
    pub open spec fn expression_tail(
        self,
        s: Seq<char>,
        p: int,
        left: Syntax,
        origin: AbsCell,
    ) -> Derived
        decreases s.len() - p, 0nat,
    {
        if p < 0 || p >= s.len() {
            Ok((left, p))
        } else if is_space(s[p]) {
            self.expression_tail(s, p + 1, left, origin)
        } else if s[p] == '+' || s[p] == '-' {
            let op = if s[p] == '+' {
                Operator::Add
            } else {
                Operator::Subtract
            };
            match self.factor(s, p + 1, origin) {
                Err(e) => Err(e),
                Ok((right, q)) => if p < q <= s.len() {
                    self.expression_tail(
                        s,
                        q,
                        Syntax::BinaryOp(Box::new(left), op, Box::new(right)),
                        origin,
                    )
                } else {
                    Err(ParseError::InvalidFormula)
                },
            }
        } else {
            Ok((left, p))
        }
    }

    /// The formula that a whole text writes down.
    pub open spec fn formula(self, s: Seq<char>, origin: AbsCell) -> Result<Syntax, ParseError> {
        match self.expression(s, 0, origin) {
            Err(e) => Err(e),
            Ok((tree, q)) => if span(s, q, CharClass::Space) == s.len() {
                Ok(tree)
            } else {
                Err(ParseError::InvalidFormula)
            },
        }
    }

    /// Blanks before a term do not change what is derived.
    pub proof fn term_skips_blanks(self, s: Seq<char>, p: int, origin: AbsCell)
        requires
            0 <= p <= s.len(),
        ensures
            self.term(s, p, origin) == self.term(s, span(s, p, CharClass::Space), origin),
        decreases s.len() - p,
    {
        if p < s.len() && is_space(s[p]) {
            self.term_skips_blanks(s, p + 1, origin);
        }
    }

    /// Blanks before the rest of a product do not change what is derived.
    pub proof fn factor_tail_skips_blanks(self, s: Seq<char>, p: int, left: Syntax, origin: AbsCell)
        requires
            0 <= p <= s.len(),
        ensures
            self.factor_tail(s, p, left, origin) == self.factor_tail(
                s,
                span(s, p, CharClass::Space),
                left,
                origin,
            ),
        decreases s.len() - p,
    {
        if p < s.len() && is_space(s[p]) {
            self.factor_tail_skips_blanks(s, p + 1, left, origin);
        }
    }

    /// Blanks before the rest of a sum do not change what is derived.
    pub proof fn expression_tail_skips_blanks(
        self,
        s: Seq<char>,
        p: int,
        left: Syntax,
        origin: AbsCell,
    )
        requires
            0 <= p <= s.len(),
        ensures
            self.expression_tail(s, p, left, origin) == self.expression_tail(
                s,
                span(s, p, CharClass::Space),
                left,
                origin,
            ),
        decreases s.len() - p,
    {
        if p < s.len() && is_space(s[p]) {
            self.expression_tail_skips_blanks(s, p + 1, left, origin);
        }
    }

    /// The way from `origin` to `cell`, where `cell` lies in the grid.
    fn make_relative(&self, cell: AbsCell, origin: AbsCell) -> (rel: Option<RelCell>)
        ensures
            rel == self.relative(cell, origin),
            rel matches Some(r) ==> r.in_grid_at(origin, self.rows(), self.cols()),
    {
        if !cell.is_in_grid(self.max_rows, self.max_cols) {
            return None;
        }
        let row: i32 = cell.row as i32 - origin.row as i32;
        let col: i32 = cell.col as i32 - origin.col as i32;
        if -32768 <= row && row <= 32767 && -32768 <= col && col <= 32767 {
            Some(RelCell { row: row as i16, col: col as i16 })
        } else {
            None
        }
    }

    /// A corner of a range at `p`, blanks aside.
    fn read_corner(&self, s: &Vec<char>, p: usize, origin: AbsCell) -> (r: Result<
        (RelCell, usize),
        ParseError,
    >)
        requires
            p <= s.len(),
        ensures
            match self.corner(s@, p as int, origin) {
                Err(e) => r == Err::<(RelCell, usize), ParseError>(e),
                Ok((rel, q)) => r == Ok::<(RelCell, usize), ParseError>((rel, q as usize)) && p < q
                    <= s.len() && rel.in_grid_at(origin, self.rows(), self.cols()),
            },
    {
        let a = scan(s, p, CharClass::Space);
        let k = scan(s, a, CharClass::Letter);
        let m = scan(s, k, CharClass::Digit);
        if a < k && k < m {
            proof {
                span_is_run(s@, a as int, CharClass::Letter);
                span_is_run(s@, k as int, CharClass::Digit);
            }
            match read_cell(s, a, k, m) {
                None => Err(ParseError::InvalidCell),
                Some(cell) => match self.make_relative(cell, origin) {
                    None => Err(ParseError::InvalidRange),
                    Some(rel) => Ok((rel, m)),
                },
            }
        } else {
            Err(ParseError::InvalidFormula)
        }
    }

    /// The arguments of a range function from `p`, after its opening
    /// bracket.
    fn read_range_arguments(&self, s: &Vec<char>, p: usize, origin: AbsCell) -> (r: Result<
        (CellRange, usize),
        ParseError,
    >)
        requires
            p <= s.len(),
        ensures
            match self.range_arguments(s@, p as int, origin) {
                Err(e) => r == Err::<(CellRange, usize), ParseError>(e),
                Ok((range, q)) => r == Ok::<(CellRange, usize), ParseError>((range, q as usize))
                    && p < q <= s.len() && range.legal_at(origin, self.rows(), self.cols()),
            },
    {
        let (top_left, q) = match self.read_corner(s, p, origin) {
            Err(e) => {
                return Err(e);
            },
            Ok(found) => found,
        };
        let c = scan(s, q, CharClass::Space);
        if !(c < s.len() && s[c] == ':') {
            return Err(ParseError::InvalidFormula);
        }
        let (bottom_right, r) = match self.read_corner(s, c + 1, origin) {
            Err(e) => {
                return Err(e);
            },
            Ok(found) => found,
        };
        let end = match read_closing(s, r) {
            None => {
                return Err(ParseError::InvalidFormula);
            },
            Some(end) => end,
        };
        if top_left.row <= bottom_right.row && top_left.col <= bottom_right.col {
            Ok((CellRange { top_left, bottom_right }, end))
        } else {
            Err(ParseError::InvalidRange)
        }
    }

    /// A number at `p`; `host` reads its value.
    fn read_number<H: Fn(Request) -> Reply>(&self, s: &Vec<char>, p: usize, host: &H) -> (r:
        Result<(Expression, usize), ParseError>)
        requires
            serves(host),
            p < s.len(),
        ensures
            agrees(host, number(s@, p as int), r),
            r matches Ok((e, end)) ==> p < end <= s.len() && e is Number,
    {
        let a = if s[p] == '-' {
            p + 1
        } else {
            p
        };
        let b = scan(s, a, CharClass::Digit);
        let c = if b < s.len() && s[b] == '.' && b + 1 < s.len() && char_is_digit(s[b + 1]) {
            scan(s, b + 1, CharClass::Digit)
        } else {
            b
        };
        if a < c {
            let mut literal: Vec<char> = Vec::new();
            let mut i: usize = p;
            while i < c
                invariant
                    p <= i <= c <= s.len(),
                    literal@ == s@.subrange(p as int, i as int),
                decreases c - i,
            {
                literal.push(s[i]);
                i += 1;
            }
            let n = ask_literal(host, literal);
            Ok((Expression::Number(n), c))
        } else {
            Err(ParseError::InvalidFormula)
        }
    }

    /// A term at `p`, blanks aside; `host` reads the numbers.
    fn read_term<H: Fn(Request) -> Reply>(
        &self,
        s: &Vec<char>,
        p: usize,
        origin: AbsCell,
        host: &H,
    ) -> (r: Result<(Expression, usize), ParseError>)
        requires
            serves(host),
            p <= s.len(),
        ensures
            agrees(host, self.term(s@, p as int, origin), r),
            r matches Ok((e, end)) ==> p < end <= s.len() && e.legal_at(
                origin,
                self.rows(),
                self.cols(),
            ),
        decreases s.len() - p, 0nat,
    {
        let a = scan(s, p, CharClass::Space);
        proof {
            self.term_skips_blanks(s@, p as int, origin);
            span_is_run(s@, p as int, CharClass::Space);
        }
        if a >= s.len() {
            return Err(ParseError::InvalidFormula);
        }
        let first = s[a];
        if first == '(' {
            let (inner, q) = match self.read_expression(s, a + 1, origin, host) {
                Err(e) => {
                    return Err(e);
                },
                Ok(found) => found,
            };
            match read_closing(s, q) {
                None => Err(ParseError::InvalidFormula),
                Some(end) => Ok((inner, end)),
            }
        } else if char_is_letter(first) {
            let k = scan(s, a, CharClass::Letter);
            proof {
                span_is_run(s@, a as int, CharClass::Letter);
            }
            if k < s.len() && char_is_digit(s[k]) {
                let m = scan(s, k, CharClass::Digit);
                proof {
                    span_is_run(s@, k as int, CharClass::Digit);
                }
                match read_cell(s, a, k, m) {
                    None => Err(ParseError::InvalidCell),
                    Some(cell) => match self.make_relative(cell, origin) {
                        None => Err(ParseError::InvalidCell),
                        Some(rel) => Ok((Expression::Cell(rel), m)),
                    },
                }
            } else {
                let q = scan(s, k, CharClass::Space);
                if q < s.len() && s[q] == '(' {
                    assert(self.term(s@, a as int, origin) == self.call(
                        s@,
                        a as int,
                        k as int,
                        q + 1,
                        origin,
                    ));
                    if reads_sleep(s, a, k) {
                        let (inner, r) = match self.read_expression(s, q + 1, origin, host) {
                            Err(e) => {
                                return Err(e);
                            },
                            Ok(found) => found,
                        };
                        match read_closing(s, r) {
                            None => Err(ParseError::InvalidFormula),
                            Some(end) => Ok((Expression::Sleep(Box::new(inner)), end)),
                        }
                    } else {
                        match read_function(s, a, k) {
                            None => Err(ParseError::InvalidFormula),
                            Some(f) => match self.read_range_arguments(s, q + 1, origin) {
                                Err(e) => Err(e),
                                Ok((range, end)) => Ok((Expression::RangeFunction(f, range), end)),
                            },
                        }
                    }
                } else {
                    Err(ParseError::InvalidFormula)
                }
            }
        } else {
            self.read_number(s, a, host)
        }
    }

    /// A product at `p`; `host` reads the numbers.
    fn read_factor<H: Fn(Request) -> Reply>(
        &self,
        s: &Vec<char>,
        p: usize,
        origin: AbsCell,
        host: &H,
    ) -> (r: Result<(Expression, usize), ParseError>)
        requires
            serves(host),
            p <= s.len(),
        ensures
            agrees(host, self.factor(s@, p as int, origin), r),
            r matches Ok((e, end)) ==> p < end <= s.len() && e.legal_at(
                origin,
                self.rows(),
                self.cols(),
            ),
        decreases s.len() - p, 1nat,
    {
        let (first, start) = match self.read_term(s, p, origin, host) {
            Err(e) => {
                return Err(e);
            },
            Ok(found) => found,
        };
        let mut left = first;
        let mut pos = start;
        let ghost mut tree: Syntax = self.term(s@, p as int, origin)->Ok_0.0;
        loop
            invariant
                serves(host),
                p < pos <= s.len(),
                tree.read_as(host, left),
                left.legal_at(origin, self.rows(), self.cols()),
                self.factor(s@, p as int, origin) == self.factor_tail(s@, pos as int, tree, origin),
            decreases s.len() - pos,
        {
            let q = scan(s, pos, CharClass::Space);
            proof {
                self.factor_tail_skips_blanks(s@, pos as int, tree, origin);
                span_is_run(s@, pos as int, CharClass::Space);
            }
            if q < s.len() && (s[q] == '*' || s[q] == '/') {
                let op = if s[q] == '*' {
                    Operator::Multiply
                } else {
                    Operator::Divide
                };
                match self.read_term(s, q + 1, origin, host) {
                    Err(e) => {
                        return Err(e);
                    },
                    Ok((right, end)) => {
                        proof {
                            let right_tree = self.term(s@, q + 1, origin)->Ok_0.0;
                            tree = Syntax::BinaryOp(Box::new(tree), op, Box::new(right_tree));
                        }
                        left = Expression::BinaryOp(Box::new(left), op, Box::new(right));
                        pos = end;
                    },
                }
            } else {
                return Ok((left, q));
            }
        }
    }

    /// A sum at `p`; `host` reads the numbers.
    fn read_expression<H: Fn(Request) -> Reply>(
        &self,
        s: &Vec<char>,
        p: usize,
        origin: AbsCell,
        host: &H,
    ) -> (r: Result<(Expression, usize), ParseError>)
        requires
            serves(host),
            p <= s.len(),
        ensures
            agrees(host, self.expression(s@, p as int, origin), r),
            r matches Ok((e, end)) ==> p < end <= s.len() && e.legal_at(
                origin,
                self.rows(),
                self.cols(),
            ),
        decreases s.len() - p, 2nat,
    {
        let (first, start) = match self.read_factor(s, p, origin, host) {
            Err(e) => {
                return Err(e);
            },
            Ok(found) => found,
        };
        let mut left = first;
        let mut pos = start;
        let ghost mut tree: Syntax = self.factor(s@, p as int, origin)->Ok_0.0;
        loop
            invariant
                serves(host),
                p < pos <= s.len(),
                tree.read_as(host, left),
                left.legal_at(origin, self.rows(), self.cols()),
                self.expression(s@, p as int, origin) == self.expression_tail(
                    s@,
                    pos as int,
                    tree,
                    origin,
                ),
            decreases s.len() - pos,
        {
            let q = scan(s, pos, CharClass::Space);
            proof {
                self.expression_tail_skips_blanks(s@, pos as int, tree, origin);
                span_is_run(s@, pos as int, CharClass::Space);
            }
            if q < s.len() && (s[q] == '+' || s[q] == '-') {
                let op = if s[q] == '+' {
                    Operator::Add
                } else {
                    Operator::Subtract
                };
                match self.read_factor(s, q + 1, origin, host) {
                    Err(e) => {
                        return Err(e);
                    },
                    Ok((right, end)) => {
                        proof {
                            let right_tree = self.factor(s@, q + 1, origin)->Ok_0.0;
                            tree = Syntax::BinaryOp(Box::new(tree), op, Box::new(right_tree));
                        }
                        left = Expression::BinaryOp(Box::new(left), op, Box::new(right));
                        pos = end;
                    },
                }
            } else {
                return Ok((left, q));
            }
        }
    }

    /// The expression that `formula` writes down for the cell `cell`; `host`
    /// reads the numbers. References are stored as the way from `cell` to the
    /// cell that the label names.
    pub fn parse<H: Fn(Request) -> Reply>(&self, formula: &str, cell: AbsCell, host: &H) -> (r:
        Result<Expression, ParseError>)
        requires
            serves(host),
        ensures
            match self.formula(formula@, cell) {
                Err(e) => r == Err::<Expression, ParseError>(e),
                Ok(tree) => r matches Ok(expression) && tree.read_as(host, expression),
            },
            r matches Ok(expression) ==> expression.legal_at(cell, self.rows(), self.cols()),
    {
        let s = to_chars(formula);
        match self.read_expression(&s, 0, cell, host) {
            Err(e) => Err(e),
            Ok((expression, end)) => {
                let q = scan(&s, end, CharClass::Space);
                if q == s.len() {
                    Ok(expression)
                } else {
                    Err(ParseError::InvalidFormula)
                }
            },
        }
    }
}

} // verus!
