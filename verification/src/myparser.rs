//! Reading the simplest formulas: the name of a cell, one operator between
//! two operands, and a function of a range.
use vstd::prelude::*;
use vstd::string::StrSliceExecFns;
use crate::common::text::{
    all_digits, all_letters, blank, char_is_space, decimal_value, find_char, index_of,
    letters_value, read_digits, read_letters, scan, span, span_is_run, to_chars, trim, trimmed,
    CharClass,
};

verus! {

/// The reader of the simplest formulas.
pub struct MyParser;

/// A column and a row, both counted from 1.
pub type Coord = (u16, u16);

/// What a function of a range is applied to: its name and the two corners
/// of the range.
pub type RangeCall = (Seq<char>, Coord, Coord);

/// The cell that `t` names: letters for the column, `A` for 1, and then
/// digits for the row, which a plus sign may precede. Neither number is
/// greater than 65535.
pub open spec fn coordinate(t: Seq<char>) -> Option<Coord> {
    let k = span(t, 0, CharClass::Letter);
    let d = if 0 <= k < t.len() && t[k] == '+' {
        k + 1
    } else {
        k
    };
    let m = span(t, d, CharClass::Digit);
    if 0 < k && d < m && m == t.len() && letters_value(t.subrange(0, k)) <= u16::MAX
        && decimal_value(t.subrange(d, m)) <= u16::MAX {
        Some((letters_value(t.subrange(0, k)) as u16, decimal_value(t.subrange(d, m)) as u16))
    } else {
        None
    }
}

/// The two sides of the first `op` in `s`, if both hold more than blanks.
pub open spec fn sides(s: Seq<char>, op: char) -> Option<(Seq<char>, Seq<char>)> {
    let i = index_of(s, 0, op);
    if 0 <= i < s.len() && !blank(s.subrange(0, i)) && !blank(s.subrange(i + 1, s.len() as int)) {
        Some((s.subrange(0, i), s.subrange(i + 1, s.len() as int)))
    } else {
        None
    }
}

/// The names of the functions of a range, in the order in which they are
/// tried.
pub open spec fn function_names() -> Seq<Seq<char>> {
    seq![
        seq!['M', 'I', 'N'],
        seq!['M', 'A', 'X'],
        seq!['A', 'V', 'G'],
        seq!['S', 'U', 'M'],
        seq!['S', 'T', 'D', 'E', 'V'],
        seq!['S', 'L', 'E', 'E', 'P'],
    ]
}

/// The corners of the range that `t` applies the function `name` to: `t` is
/// the name, an opening bracket, two cell names with a colon between, and a
/// closing bracket; blanks may stand around each cell name.
pub open spec fn call_of(t: Seq<char>, name: Seq<char>) -> Option<(Coord, Coord)> {
    let open = name.len() as int;
    if t.len() >= open + 2 && t.subrange(0, open) == name && t[open] == '(' && t.last() == ')' {
        let inside = t.subrange(open + 1, t.len() - 1);
        let colon = index_of(inside, 0, ':');
        if 0 <= colon < inside.len() {
            match (
                coordinate(trimmed(inside.subrange(0, colon))),
                coordinate(trimmed(inside.subrange(colon + 1, inside.len() as int))),
            ) {
                (Some(start), Some(end)) => Some((start, end)),
                _ => None,
            }
        } else {
            None
        }
    } else {
        None
    }
}

/// The call that `t` writes, the names being tried from place `from` on.
pub open spec fn call_from(t: Seq<char>, from: int) -> Option<RangeCall>
    decreases function_names().len() - from,
{
    if 0 <= from < function_names().len() {
        match call_of(t, function_names()[from]) {
            Some((start, end)) => Some((function_names()[from], start, end)),
            None => call_from(t, from + 1),
        }
    } else {
        None
    }
}

/// The cell that the characters of `t` name.
fn read_coordinate(t: &Vec<char>) -> (r: Option<Coord>)
    ensures
        r == coordinate(t@),
{
    let k = scan(t, 0, CharClass::Letter);
    let d = if k < t.len() && t[k] == '+' {
        k + 1
    } else {
        k
    };
    let m = scan(t, d, CharClass::Digit);
    if 0 < k && d < m && m == t.len() {
        proof {
            span_is_run(t@, 0, CharClass::Letter);
            span_is_run(t@, d as int, CharClass::Digit);
        }
        match (read_letters(t, 0, k, 65535), read_digits(t, d, m, 65535)) {
            (Some(col), Some(row)) => Some((col as u16, row as u16)),
            _ => None,
        }
    } else {
        None
    }
}

/// The characters of `s` from `from` to `to`.
pub fn slice(s: &Vec<char>, from: usize, to: usize) -> (part: Vec<char>)
    requires
        from <= to <= s.len(),
    ensures
        part@ == s@.subrange(from as int, to as int),
{
    let mut part: Vec<char> = Vec::new();
    let mut i: usize = from;
    while i < to
        invariant
            from <= i <= to <= s.len(),
            part@ == s@.subrange(from as int, i as int),
        decreases to - i,
    {
        part.push(s[i]);
        i += 1;
    }
    part
}

/// Whether the characters of `s` from `from` to `to` are all blanks.
fn is_blank(s: &Vec<char>, from: usize, to: usize) -> (b: bool)
    requires
        from <= to <= s.len(),
    ensures
        b == blank(s@.subrange(from as int, to as int)),
{
    let ghost part = s@.subrange(from as int, to as int);
    let mut i: usize = from;
    while i < to && char_is_space(s[i])
        invariant
            from <= i <= to <= s.len(),
            part == s@.subrange(from as int, to as int),
            span(part, 0, CharClass::Space) == span(part, i - from, CharClass::Space),
        decreases to - i,
    {
        i += 1;
    }
    if i < to {
        assert(part[i - from] == s@[i as int]);
    }
    i == to
}

/// The cell that the part of `s` between `from` and `to` names, blanks
/// around it aside.
pub fn read_trimmed_coordinate(s: &Vec<char>, from: usize, to: usize) -> (r: Option<Coord>)
    requires
        from <= to <= s.len(),
    ensures
        r == coordinate(trimmed(s@.subrange(from as int, to as int))),
{
    let (a, b) = trim(s, from, to);
    let part = slice(s, a, b);
    read_coordinate(&part)
}

/// The corners of the range that `t` applies the function `name` to.
fn read_call(t: &Vec<char>, name: &Vec<char>) -> (r: Option<(Coord, Coord)>)
    requires
        name@.len() < 10,
    ensures
        r == call_of(t@, name@),
{
    let open = name.len();
    if t.len() < open + 2 {
        return None;
    }
    if !crate::common::text::same_text(t, 0, open, name) {
        return None;
    }
    if t[open] != '(' || t[t.len() - 1] != ')' {
        return None;
    }
    let inside = slice(t, open + 1, t.len() - 1);
    let colon = find_char(&inside, 0, ':');
    if colon >= inside.len() {
        return None;
    }
    let start = read_trimmed_coordinate(&inside, 0, colon);
    let end = read_trimmed_coordinate(&inside, colon + 1, inside.len());
    match (start, end) {
        (Some(start), Some(end)) => Some((start, end)),
        _ => None,
    }
}

impl MyParser {
    /// The cell that `s` names, blanks around the name aside.
    pub open spec fn cell_coordinate(s: Seq<char>) -> Option<Coord> {
        coordinate(trimmed(s))
    }

    /// The operator and the two operands of `s`: `s` is cut at the first `+`;
    /// if that leaves a side with nothing but blanks, or if there is no `+`,
    /// at the first `-`, then `*`, then `/`.
    pub open spec fn split(s: Seq<char>) -> Option<(char, Seq<char>, Seq<char>)> {
        match sides(s, '+') {
            Some((l, r)) => Some(('+', l, r)),
            None => match sides(s, '-') {
                Some((l, r)) => Some(('-', l, r)),
                None => match sides(s, '*') {
                    Some((l, r)) => Some(('*', l, r)),
                    None => match sides(s, '/') {
                        Some((l, r)) => Some(('/', l, r)),
                        None => None,
                    },
                },
            },
        }
    }

    /// The call of a function of a range that `s` writes, blanks around it
    /// aside.
    pub open spec fn range_call(s: Seq<char>) -> Option<RangeCall> {
        call_from(trimmed(s), 0)
    }

    /// Converts the name of a cell, such as `A1`, into its column and row,
    /// both counted from 1.
    pub fn cell_name_to_coord(s: &str) -> (r: Option<(u16, u16)>)
        ensures
            r == Self::cell_coordinate(s@),
    {
        let chars = to_chars(s);
        assert(chars@.subrange(0, chars@.len() as int) =~= chars@);
        read_trimmed_coordinate(&chars, 0, chars.len())
    }

    /// Cuts `expr` at `op` into two operands, if both hold more than blanks.
    fn cut<'a>(expr: &'a str, chars: &Vec<char>, op: char) -> (r: Option<(&'a str, &'a str)>)
        requires
            chars@ == expr@,
        ensures
            match sides(expr@, op) {
                Some((l, r_side)) => r matches Some((a, b)) && a@ == l && b@ == r_side,
                None => r is None,
            },
    {
        let i = find_char(chars, 0, op);
        if i < chars.len() && !is_blank(chars, 0, i) && !is_blank(chars, i + 1, chars.len()) {
            Some((expr.substring_char(0, i), expr.substring_char(i + 1, chars.len())))
        } else {
            None
        }
    }

    /// Splits an expression of one operator into the operator and its two
    /// operands.
    pub fn split_binary(expr: &str) -> (r: Option<(char, &str, &str)>)
        ensures
            match Self::split(expr@) {
                Some((op, l, r_side)) => r matches Some((c, a, b)) && c == op && a@ == l && b@
                    == r_side,
                None => r is None,
            },
    {
        let chars = to_chars(expr);
        match Self::cut(expr, &chars, '+') {
            Some((l, r)) => {
                return Some(('+', l, r));
            },
            None => {},
        }
        match Self::cut(expr, &chars, '-') {
            Some((l, r)) => {
                return Some(('-', l, r));
            },
            None => {},
        }
        match Self::cut(expr, &chars, '*') {
            Some((l, r)) => {
                return Some(('*', l, r));
            },
            None => {},
        }
        match Self::cut(expr, &chars, '/') {
            Some((l, r)) => Some(('/', l, r)),
            None => None,
        }
    }

    /// Reads the call of a function of a range, such as `MAX(A1:B3)`: the
    /// name of the function and the two corners of the range.
    pub fn parse_range(expr: &str) -> (r: Option<(&'static str, (u16, u16), (u16, u16))>)
        ensures
            match Self::range_call(expr@) {
                Some((name, start, end)) => r matches Some((n, s, e)) && n@ == name && s == start
                    && e == end,
                None => r is None,
            },
    {
        let chars = to_chars(expr);
        assert(chars@.subrange(0, chars@.len() as int) =~= chars@);
        let (a, b) = trim(&chars, 0, chars.len());
        let t = slice(&chars, a, b);
        proof {
            reveal_strlit("MIN");
            reveal_strlit("MAX");
            reveal_strlit("AVG");
            reveal_strlit("SUM");
            reveal_strlit("STDEV");
            reveal_strlit("SLEEP");
            reveal_with_fuel(call_from, 7);
        }
        let min = vec!['M', 'I', 'N'];
        assert(min@ =~= function_names()[0]);
        assert("MIN"@ =~= function_names()[0]);
        match read_call(&t, &min) {
            Some((s, e)) => {
                return Some(("MIN", s, e));
            },
            None => {},
        }
        let max = vec!['M', 'A', 'X'];
        assert(max@ =~= function_names()[1]);
        assert("MAX"@ =~= function_names()[1]);
        match read_call(&t, &max) {
            Some((s, e)) => {
                return Some(("MAX", s, e));
            },
            None => {},
        }
        let avg = vec!['A', 'V', 'G'];
        assert(avg@ =~= function_names()[2]);
        assert("AVG"@ =~= function_names()[2]);
        match read_call(&t, &avg) {
            Some((s, e)) => {
                return Some(("AVG", s, e));
            },
            None => {},
        }
        let sum = vec!['S', 'U', 'M'];
        assert(sum@ =~= function_names()[3]);
        assert("SUM"@ =~= function_names()[3]);
        match read_call(&t, &sum) {
            Some((s, e)) => {
                return Some(("SUM", s, e));
            },
            None => {},
        }
        let stdev = vec!['S', 'T', 'D', 'E', 'V'];
        assert(stdev@ =~= function_names()[4]);
        assert("STDEV"@ =~= function_names()[4]);
        match read_call(&t, &stdev) {
            Some((s, e)) => {
                return Some(("STDEV", s, e));
            },
            None => {},
        }
        let sleep = vec!['S', 'L', 'E', 'E', 'P'];
        assert(sleep@ =~= function_names()[5]);
        assert("SLEEP"@ =~= function_names()[5]);
        match read_call(&t, &sleep) {
            Some((s, e)) => Some(("SLEEP", s, e)),
            None => None,
        }
    }
}

} // verus!
