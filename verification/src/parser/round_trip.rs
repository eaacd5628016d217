//! What is written can be read: the text of a formula derives the formula.
//!
//! The text of a formula is built from its tree by the rules of
//! `Syntax::text`: operators between spaces, brackets round an operand that
//! binds less tightly than its place asks for. The proofs here follow the
//! grammar through such a text and show that it derives the tree that the
//! text was built from.
use vstd::prelude::*;
use crate::common::expression::{
    sleep_name, CellRange, Expression, Operator, RangeFunction, Syntax,
};
use crate::common::expression::writes_formula;
use crate::common::number::{reads_literal, writes_number, Number, Reply, Request};
use crate::common::structs::{cell_of, label_in_text, AbsCell, RelCell};
use crate::common::text::{
    column_letters, column_reads_back, decimal, decimal_reads_back, is_digit, is_letter, is_space,
    is_upper, span, span_exact, span_is_run, CharClass, ParseError,
};
use crate::parser::formula_parser::{closing, function_named, number, Derived, FormulaParser};

verus! {

/// Whether a term can end at `e`: the text ends there, or a blank or a
/// closing bracket follows.
pub open spec fn stops(s: Seq<char>, e: int) -> bool {
    e == s.len() || (0 <= e < s.len() && (s[e] == ' ' || s[e] == ')'))
}

/// Whether a product can end at `e`: after the blanks that follow, the text
/// ends or goes on with something other than `*` or `/`.
pub open spec fn product_ends(s: Seq<char>, e: int) -> bool {
    let q = span(s, e, CharClass::Space);
    q >= s.len() || (s[q] != '*' && s[q] != '/')
}

/// Whether a sum can end at `e`: after the blanks that follow, the text ends
/// or goes on with something other than an operator.
pub open spec fn sum_ends(s: Seq<char>, e: int) -> bool {
    let q = span(s, e, CharClass::Space);
    q >= s.len() || (s[q] != '*' && s[q] != '/' && s[q] != '+' && s[q] != '-')
}

/// Whether `t` is a number as the grammar writes it, and nothing else.
pub open spec fn numeral(t: Seq<char>) -> bool {
    number(t, 0) == Ok::<(Syntax, int), ParseError>((Syntax::Number(t), t.len() as int))
}

impl Syntax {
    /// Whether the formula can be written for the cell `origin` in a grid of
    /// `rows` rows and `cols` columns and read again: every number is written
    /// as the grammar writes numbers, every reference lies in the grid, and
    /// every range has its corners in order and in the grid.
    pub open spec fn sound_at(self, origin: AbsCell, rows: u16, cols: u16) -> bool
        decreases self,
    {
        match self {
            Syntax::Number(t) => numeral(t),
            Syntax::Cell(rel) => rel.in_grid_at(origin, rows, cols),
            Syntax::BinaryOp(l, _, r) => l.sound_at(origin, rows, cols) && r.sound_at(
                origin,
                rows,
                cols,
            ),
            Syntax::RangeFunction(_, range) => range.legal_at(origin, rows, cols),
            Syntax::Sleep(inner) => inner.sound_at(origin, rows, cols),
        }
    }
}

/// A run inside a part of a text ends where it ends in the part taken alone,
/// if what follows the part does not carry the run on.
pub proof fn span_in_part(s: Seq<char>, p: int, t: Seq<char>, i: int, class: CharClass)
    requires
        0 <= p,
        p + t.len() <= s.len(),
        s.subrange(p, p + t.len()) == t,
        0 <= i <= t.len(),
        p + t.len() == s.len() || !class.has(s[p + t.len()]),
    ensures
        span(s, p + i, class) == p + span(t, i, class),
    decreases t.len() - i,
{
    if i < t.len() {
        assert(s.subrange(p, p + t.len())[i] == s[p + i]);
        if class.has(t[i]) {
            span_in_part(s, p, t, i + 1, class);
        }
    }
}

/// A number that stands in a text and is followed by a blank, a closing
/// bracket or nothing is read there as it is read alone.
pub proof fn number_in_text(s: Seq<char>, p: int, t: Seq<char>)
    requires
        numeral(t),
        0 <= p,
        p + t.len() <= s.len(),
        s.subrange(p, p + t.len()) == t,
        stops(s, p + t.len()),
    ensures
        number(s, p) == Ok::<(Syntax, int), ParseError>((Syntax::Number(t), p + t.len())),
        p < s.len(),
        !is_space(s[p]),
        s[p] != '(',
        !is_letter(s[p]),
{
    let e = p + t.len();
    assert forall|i: int| 0 <= i < t.len() implies s[p + i] == t[i] by {
        assert(s.subrange(p, e)[i] == s[p + i]);
    }
    let at = if 0 < t.len() && t[0] == '-' {
        1int
    } else {
        0int
    };
    let bt = span(t, at, CharClass::Digit);
    span_is_run(t, at, CharClass::Digit);
    span_in_part(s, p, t, at, CharClass::Digit);
    let a = p + at;
    let b = p + bt;
    assert(span(s, a, CharClass::Digit) == b);
    if bt + 1 < t.len() && t[bt] == '.' && is_digit(t[bt + 1]) {
        span_in_part(s, p, t, bt + 1, CharClass::Digit);
        assert(s.subrange(p, e) =~= t);
    } else {
        assert(bt == t.len());
        assert(s.subrange(p, e) =~= t);
    }
    if at == 0 {
        if bt == 0 {
            assert(t[0] == '.');
        } else {
            assert(is_digit(t[0]));
        }
    }
}

/// The label of a cell of the grid that stands in a text and is followed by
/// no digit is read there as a reference to the cell.
pub proof fn reference_in_text(
    parser: FormulaParser,
    s: Seq<char>,
    p: int,
    rel: RelCell,
    origin: AbsCell,
)
    requires
        rel.in_grid_at(origin, parser.rows(), parser.cols()),
        0 <= p,
        p + rel.label_at(origin).len() <= s.len(),
        s.subrange(p, p + rel.label_at(origin).len()) == rel.label_at(origin),
        p + rel.label_at(origin).len() == s.len() || !is_digit(s[p + rel.label_at(origin).len()]),
    ensures
        parser.term(s, p, origin) == Ok::<(Syntax, int), ParseError>(
            (Syntax::Cell(rel), p + rel.label_at(origin).len()),
        ),
        parser.corner(s, p, origin) == Ok::<(RelCell, int), ParseError>(
            (rel, p + rel.label_at(origin).len()),
        ),
        p < s.len(),
        is_letter(s[p]),
{
    let row = rel.row_at(origin);
    let col = rel.col_at(origin);
    label_in_text(s, p, row, col);
    let k = p + column_letters((col + 1) as nat).len();
    let m = k + decimal((row + 1) as nat).len();
    let cell = AbsCell { row: row as i16, col: col as i16 };
    assert(parser.relative(cell, origin) == Some(rel));
    assert(span(s, p, CharClass::Space) == p);
}

/// The names of the functions of a range are made of letters, differ from
/// one another and from the name of the delay, and each names its function.
pub proof fn names_are_told_apart(f: RangeFunction)
    ensures
        function_named(f.name()) == Some(f),
        f.name() != sleep_name(),
        forall|i: int| 0 <= i < f.name().len() ==> is_upper(#[trigger] f.name()[i]),
        f.name().len() >= 3,
        forall|i: int| 0 <= i < sleep_name().len() ==> is_upper(#[trigger] sleep_name()[i]),
        sleep_name().len() == 5,
{
    let min = RangeFunction::Min.name();
    let max = RangeFunction::Max.name();
    let avg = RangeFunction::Avg.name();
    let sum = RangeFunction::Sum.name();
    let stdev = RangeFunction::Stdev.name();
    let sleep = sleep_name();
    assert(min[1] == 'I' && max[1] == 'A' && avg[1] == 'V' && sum[1] == 'U' && stdev[1] == 'T'
        && sleep[1] == 'L');
    assert(min[0] == 'M' && max[0] == 'M' && avg[0] == 'A' && sum[0] == 'S' && stdev[0] == 'S');
    assert(min[2] == 'N' && max[2] == 'X' && avg[2] == 'G' && sum[2] == 'M' && stdev[2] == 'D');
    assert(stdev[3] == 'E' && stdev[4] == 'V');
    assert(sleep[0] == 'S' && sleep[2] == 'E' && sleep[3] == 'E' && sleep[4] == 'P');
}

/// A text that is found in a longer one is found there character by
/// character.
pub proof fn found_in(s: Seq<char>, p: int, t: Seq<char>)
    requires
        0 <= p,
        p + t.len() <= s.len(),
        s.subrange(p, p + t.len()) == t,
    ensures
        forall|i: int| 0 <= i < t.len() ==> s[p + i] == #[trigger] t[i],
{
    assert forall|i: int| 0 <= i < t.len() implies s[p + i] == #[trigger] t[i] by {
        assert(s.subrange(p, p + t.len())[i] == s[p + i]);
    }
}

/// Where two texts in a row are found in a longer one, each of them is
/// found there.
pub proof fn found_two(s: Seq<char>, p: int, a: Seq<char>, b: Seq<char>)
    requires
        0 <= p,
        p + a.len() + b.len() <= s.len(),
        s.subrange(p, p + a.len() + b.len()) == a + b,
    ensures
        s.subrange(p, p + a.len()) == a,
        s.subrange(p + a.len(), p + a.len() + b.len()) == b,
{
    let whole = a + b;
    found_in(s, p, whole);
    assert forall|i: int| 0 <= i < a.len() implies s[p + i] == a[i] by {
        assert(whole[i] == a[i]);
    }
    assert forall|i: int| 0 <= i < b.len() implies s[p + a.len() + i] == b[i] by {
        assert(whole[a.len() + i] == b[i]);
    }
    assert(s.subrange(p, p + a.len()) =~= a);
    assert(s.subrange(p + a.len(), p + a.len() + b.len()) =~= b);
}

/// Where three texts in a row are found in a longer one, each of them is
/// found there.
pub proof fn found_three(s: Seq<char>, p: int, a: Seq<char>, b: Seq<char>, c: Seq<char>)
    requires
        0 <= p,
        p + a.len() + b.len() + c.len() <= s.len(),
        s.subrange(p, p + a.len() + b.len() + c.len()) == a + b + c,
    ensures
        s.subrange(p, p + a.len()) == a,
        s.subrange(p + a.len(), p + a.len() + b.len()) == b,
        s.subrange(p + a.len() + b.len(), p + a.len() + b.len() + c.len()) == c,
{
    found_two(s, p, a + b, c);
    found_two(s, p, a, b);
}

/// Where four texts in a row are found in a longer one, each of them is
/// found there.
pub proof fn found_four(
    s: Seq<char>,
    p: int,
    a: Seq<char>,
    b: Seq<char>,
    c: Seq<char>,
    d: Seq<char>,
)
    requires
        0 <= p,
        p + a.len() + b.len() + c.len() + d.len() <= s.len(),
        s.subrange(p, p + a.len() + b.len() + c.len() + d.len()) == a + b + c + d,
    ensures
        s.subrange(p, p + a.len()) == a,
        s.subrange(p + a.len(), p + a.len() + b.len()) == b,
        s.subrange(p + a.len() + b.len(), p + a.len() + b.len() + c.len()) == c,
        s.subrange(
            p + a.len() + b.len() + c.len(),
            p + a.len() + b.len() + c.len() + d.len(),
        ) == d,
{
    found_two(s, p, a + b + c, d);
    found_three(s, p, a, b, c);
}

/// A name in upper-case letters that is found in a text and followed by an
/// opening bracket is the run of letters there.
pub proof fn name_in_text(s: Seq<char>, p: int, name: Seq<char>)
    requires
        0 <= p,
        p + name.len() < s.len(),
        name.len() > 0,
        s.subrange(p, p + name.len()) == name,
        forall|i: int| 0 <= i < name.len() ==> is_upper(#[trigger] name[i]),
        s[p + name.len()] == '(',
    ensures
        span(s, p, CharClass::Letter) == p + name.len(),
        span(s, p + name.len(), CharClass::Space) == p + name.len(),
        is_letter(s[p]),
        !is_space(s[p]),
        s[p] != '(',
{
    found_in(s, p, name);
    assert forall|i: int| p <= i < p + name.len() implies CharClass::Letter.has(
        #[trigger] s[i],
    ) by {
        assert(s[p + (i - p)] == name[i - p]);
        assert(is_upper(name[i - p]));
    }
    span_exact(s, p, p + name.len(), CharClass::Letter);
    assert(s[p + 0] == name[0]);
    assert(is_upper(name[0]));
}

/// Where a product can end, the rest of a product is nothing: what was read
/// so far is the product, and it ends after the blanks that follow.
pub proof fn factor_tail_ends(
    parser: FormulaParser,
    s: Seq<char>,
    e: int,
    left: Syntax,
    origin: AbsCell,
)
    requires
        0 <= e <= s.len(),
        product_ends(s, e),
    ensures
        parser.factor_tail(s, e, left, origin) == Ok::<(Syntax, int), ParseError>(
            (left, span(s, e, CharClass::Space)),
        ),
{
    parser.factor_tail_skips_blanks(s, e, left, origin);
    span_is_run(s, e, CharClass::Space);
}

/// Where a sum can end, the rest of a sum is nothing.
pub proof fn expression_tail_ends(
    parser: FormulaParser,
    s: Seq<char>,
    e: int,
    left: Syntax,
    origin: AbsCell,
)
    requires
        0 <= e <= s.len(),
        sum_ends(s, e),
    ensures
        parser.expression_tail(s, e, left, origin) == Ok::<(Syntax, int), ParseError>(
            (left, span(s, e, CharClass::Space)),
        ),
{
    parser.expression_tail_skips_blanks(s, e, left, origin);
    span_is_run(s, e, CharClass::Space);
}

/// The order in which the proofs about sums, products and terms rest on
/// one another, for a tree that binds at `level`.
pub open spec fn sum_rank(level: nat) -> nat {
    level
}

/// The place of the proof about products in that order.
pub open spec fn product_rank(level: nat) -> nat {
    if level == 0 {
        2
    } else {
        (level - 1) as nat
    }
}

/// The place of the proof about terms in that order.
pub open spec fn term_rank(level: nat) -> nat {
    if level == 2 {
        0
    } else {
        (level + 1) as nat
    }
}

/// The text of every formula holds at least one character.
pub proof fn text_is_not_empty(tree: Syntax, origin: AbsCell, rows: u16, cols: u16)
    requires
        tree.sound_at(origin, rows, cols),
    ensures
        tree.text(origin).len() > 0,
    decreases tree,
{
    match tree {
        Syntax::Number(t) => {},
        Syntax::Cell(rel) => {
            column_reads_back((rel.col_at(origin) + 1) as nat);
        },
        _ => {},
    }
}

/// A formula in brackets is a term: where a sum is read after an opening
/// bracket and a closing bracket follows it, the term is that sum.
pub proof fn bracket_reads(
    parser: FormulaParser,
    origin: AbsCell,
    tree: Syntax,
    s: Seq<char>,
    p0: int,
    p: int,
    q: int,
)
    requires
        0 <= p0 <= p < q < s.len(),
        forall|i: int| p0 <= i < p ==> is_space(#[trigger] s[i]),
        s[p] == '(',
        s[q] == ')',
        parser.expression(s, p + 1, origin) == Ok::<(Syntax, int), ParseError>((tree, q)),
    ensures
        parser.term(s, p0, origin) == Ok::<(Syntax, int), ParseError>((tree, q + 1)),
{
    parser.term_skips_blanks(s, p0, origin);
    span_exact(s, p0, p, CharClass::Space);
    assert(span(s, q, CharClass::Space) == q);
}

/// A delay is a term: where its name stands before an opening bracket, a
/// sum is read after the bracket and a closing bracket follows it, the term
/// is the delay of that sum.
pub proof fn delay_reads(
    parser: FormulaParser,
    origin: AbsCell,
    inner: Syntax,
    s: Seq<char>,
    p0: int,
    p: int,
    q: int,
)
    requires
        0 <= p0 <= p,
        p + 6 <= q < s.len(),
        forall|i: int| p0 <= i < p ==> is_space(#[trigger] s[i]),
        s.subrange(p, p + 5) == sleep_name(),
        s[p + 5] == '(',
        s[q] == ')',
        parser.expression(s, p + 6, origin) == Ok::<(Syntax, int), ParseError>((inner, q)),
    ensures
        parser.term(s, p0, origin) == Ok::<(Syntax, int), ParseError>(
            (Syntax::Sleep(Box::new(inner)), q + 1),
        ),
{
    names_are_told_apart(RangeFunction::Min);
    name_in_text(s, p, sleep_name());
    parser.term_skips_blanks(s, p0, origin);
    span_exact(s, p0, p, CharClass::Space);
    assert(span(s, q, CharClass::Space) == q);
    assert(parser.term(s, p, origin) == parser.call(s, p, p + 5, p + 6, origin));
}

/// A function of a range is a term: its text is read as it was written.
pub proof fn range_reads(
    parser: FormulaParser,
    origin: AbsCell,
    f: RangeFunction,
    range: CellRange,
    s: Seq<char>,
    p0: int,
    p: int,
)
    requires
        range.legal_at(origin, parser.rows(), parser.cols()),
        0 <= p0 <= p,
        forall|i: int| p0 <= i < p ==> is_space(#[trigger] s[i]),
        p + Syntax::RangeFunction(f, range).text(origin).len() <= s.len(),
        s.subrange(p, p + Syntax::RangeFunction(f, range).text(origin).len())
            == Syntax::RangeFunction(f, range).text(origin),
    ensures
        parser.term(s, p0, origin) == Ok::<(Syntax, int), ParseError>(
            (
                Syntax::RangeFunction(f, range),
                p + Syntax::RangeFunction(f, range).text(origin).len(),
            ),
        ),
{
    let w = Syntax::RangeFunction(f, range).text(origin);
    let e = p + w.len();
    names_are_told_apart(f);
    let name = f.name();
    let first = range.top_left.label_at(origin);
    let second = range.bottom_right.label_at(origin);
    let inside = first + seq![':'] + second;
    assert(w == name + seq!['('] + inside + seq![')']);
    found_four(s, p, name, seq!['('], inside, seq![')']);
    let k = p + name.len();
    let a = k + 1;
    found_in(s, k, seq!['(']);
    assert(s[k + 0] == seq!['('][0]);
    found_in(s, e - 1, seq![')']);
    assert(s[e - 1 + 0] == seq![')'][0]);
    name_in_text(s, p, name);
    parser.term_skips_blanks(s, p0, origin);
    span_exact(s, p0, p, CharClass::Space);
    found_three(s, a, first, seq![':'], second);
    let b = a + first.len();
    found_in(s, b, seq![':']);
    assert(s[b + 0] == seq![':'][0]);
    reference_in_text(parser, s, a, range.top_left, origin);
    assert(span(s, a, CharClass::Space) == a);
    assert(span(s, b, CharClass::Space) == b);
    let c = b + 1;
    let d = c + second.len();
    assert(d == e - 1);
    reference_in_text(parser, s, c, range.bottom_right, origin);
    assert(span(s, c, CharClass::Space) == c);
    assert(span(s, d, CharClass::Space) == d);
    assert(closing(s, d) == Some(e));
    assert(parser.range_arguments(s, a, origin) == Ok::<(CellRange, int), ParseError>((range, e)));
    assert(parser.term(s, p, origin) == parser.call(s, p, k, a, origin));
}

/// A term that stands in a text, after blanks, is read as it was written.
pub proof fn term_reads(
    parser: FormulaParser,
    origin: AbsCell,
    tree: Syntax,
    s: Seq<char>,
    p0: int,
    p: int,
)
    requires
        tree.sound_at(origin, parser.rows(), parser.cols()),
        0 <= p0 <= p,
        forall|i: int| p0 <= i < p ==> is_space(#[trigger] s[i]),
        p + tree.text_within(origin, 2).len() <= s.len(),
        s.subrange(p, p + tree.text_within(origin, 2).len()) == tree.text_within(origin, 2),
        stops(s, p + tree.text_within(origin, 2).len()),
    ensures
        parser.term(s, p0, origin) == Ok::<(Syntax, int), ParseError>(
            (tree, p + tree.text_within(origin, 2).len()),
        ),
        tree.text_within(origin, 2).len() > 0,
    decreases tree, term_rank(tree.level()),
{
    let w = tree.text_within(origin, 2);
    let e = p + w.len();
    text_is_not_empty(tree, origin, parser.rows(), parser.cols());
    match tree {
        Syntax::Number(t) => {
            parser.term_skips_blanks(s, p0, origin);
            number_in_text(s, p, t);
            span_exact(s, p0, p, CharClass::Space);
        },
        Syntax::Cell(rel) => {
            parser.term_skips_blanks(s, p0, origin);
            reference_in_text(parser, s, p, rel, origin);
            span_exact(s, p0, p, CharClass::Space);
        },
        Syntax::BinaryOp(l, op, r) => {
            let inner = tree.text(origin);
            assert(w == seq!['('] + inner + seq![')']);
            found_three(s, p, seq!['('], inner, seq![')']);
            found_in(s, p, seq!['(']);
            found_in(s, e - 1, seq![')']);
            assert(s[p + 0] == seq!['('][0]);
            assert(s[e - 1 + 0] == seq![')'][0]);
            assert(span(s, e - 1, CharClass::Space) == e - 1);
            sum_reads(parser, origin, tree, s, p + 1, p + 1);
            expression_tail_ends(parser, s, e - 1, tree, origin);
            bracket_reads(parser, origin, tree, s, p0, p, e - 1);
        },
        Syntax::RangeFunction(f, range) => {
            range_reads(parser, origin, f, range, s, p0, p);
        },
        Syntax::Sleep(inner) => {
            let name = sleep_name();
            let body = inner.text(origin);
            assert(w == name + seq!['('] + body + seq![')']);
            found_four(s, p, name, seq!['('], body, seq![')']);
            found_in(s, p + 5, seq!['(']);
            assert(s[p + 5 + 0] == seq!['('][0]);
            found_in(s, e - 1, seq![')']);
            assert(s[e - 1 + 0] == seq![')'][0]);
            assert(span(s, e - 1, CharClass::Space) == e - 1);
            text_is_not_empty(*inner, origin, parser.rows(), parser.cols());
            sum_reads(parser, origin, *inner, s, p + 6, p + 6);
            expression_tail_ends(parser, s, e - 1, *inner, origin);
            delay_reads(parser, origin, *inner, s, p0, p, e - 1);
        },
    }
}

/// A product that stands in a text, after blanks, is read as it was written:
/// reading goes on after it with the rest of a product.
pub proof fn product_reads(
    parser: FormulaParser,
    origin: AbsCell,
    tree: Syntax,
    s: Seq<char>,
    p0: int,
    p: int,
)
    requires
        tree.sound_at(origin, parser.rows(), parser.cols()),
        0 <= p0 <= p,
        forall|i: int| p0 <= i < p ==> is_space(#[trigger] s[i]),
        p + tree.text_within(origin, 1).len() <= s.len(),
        s.subrange(p, p + tree.text_within(origin, 1).len()) == tree.text_within(origin, 1),
        stops(s, p + tree.text_within(origin, 1).len()),
    ensures
        parser.factor(s, p0, origin) == parser.factor_tail(
            s,
            p + tree.text_within(origin, 1).len(),
            tree,
            origin,
        ),
        tree.text_within(origin, 1).len() > 0,
    decreases tree, product_rank(tree.level()),
{
    let w = tree.text_within(origin, 1);
    let e = p + w.len();
    if tree.level() != 1 {
        assert(w == tree.text_within(origin, 2));
        term_reads(parser, origin, tree, s, p0, p);
    } else {
        match tree {
            Syntax::BinaryOp(l, op, r) => {
                let first = l.text_within(origin, 1);
                let sign = seq![' ', op.symbol(), ' '];
                let second = r.text_within(origin, 2);
                assert(w == first + sign + second);
                found_three(s, p, first, sign, second);
                let el = p + first.len();
                found_in(s, el, sign);
                assert(s[el + 0] == sign[0] && s[el + 1] == sign[1] && s[el + 2] == sign[2]);
                product_reads(parser, origin, *l, s, p0, p);
                term_reads(parser, origin, *r, s, el + 2, el + 3);
                assert(parser.factor_tail(s, el, *l, origin) == parser.factor_tail(
                    s,
                    el + 1,
                    *l,
                    origin,
                ));
            },
            _ => {},
        }
    }
}

/// A sum that stands in a text, after blanks, and after which a product can
/// end, is read as it was written: reading goes on after it with the rest of
/// a sum.
pub proof fn sum_reads(
    parser: FormulaParser,
    origin: AbsCell,
    tree: Syntax,
    s: Seq<char>,
    p0: int,
    p: int,
)
    requires
        tree.sound_at(origin, parser.rows(), parser.cols()),
        0 <= p0 <= p,
        forall|i: int| p0 <= i < p ==> is_space(#[trigger] s[i]),
        p + tree.text(origin).len() <= s.len(),
        s.subrange(p, p + tree.text(origin).len()) == tree.text(origin),
        stops(s, p + tree.text(origin).len()),
        product_ends(s, p + tree.text(origin).len()),
    ensures
        parser.expression(s, p0, origin) == parser.expression_tail(
            s,
            p + tree.text(origin).len(),
            tree,
            origin,
        ),
        tree.text(origin).len() > 0,
    decreases tree, sum_rank(tree.level()),
{
    let w = tree.text(origin);
    let e = p + w.len();
    text_is_not_empty(tree, origin, parser.rows(), parser.cols());
    if tree.level() != 0 {
        assert(w == tree.text_within(origin, 1));
        product_reads(parser, origin, tree, s, p0, p);
        factor_tail_ends(parser, s, e, tree, origin);
        span_is_run(s, e, CharClass::Space);
        parser.expression_tail_skips_blanks(s, e, tree, origin);
    } else {
        match tree {
            Syntax::BinaryOp(l, op, r) => {
                let first = l.text_within(origin, 0);
                let sign = seq![' ', op.symbol(), ' '];
                let second = r.text_within(origin, 1);
                assert(w == first + sign + second);
                assert(first == l.text(origin));
                found_three(s, p, first, sign, second);
                let el = p + first.len();
                found_in(s, el, sign);
                assert(s[el + 0] == sign[0] && s[el + 1] == sign[1] && s[el + 2] == sign[2]);
                assert(span(s, el, CharClass::Space) == el + 1) by {
                    span_exact(s, el, el + 1, CharClass::Space);
                }
                sum_reads(parser, origin, *l, s, p0, p);
                product_reads(parser, origin, *r, s, el + 2, el + 3);
                factor_tail_ends(parser, s, e, *r, origin);
                span_is_run(s, e, CharClass::Space);
                parser.expression_tail_skips_blanks(
                    s,
                    e,
                    Syntax::BinaryOp(l, op, r),
                    origin,
                );
                assert(parser.expression_tail(s, el, *l, origin) == parser.expression_tail(
                    s,
                    el + 1,
                    *l,
                    origin,
                ));
            },
            _ => {},
        }
    }
}

/// The text of a formula derives the formula.
pub proof fn formula_reads(parser: FormulaParser, origin: AbsCell, tree: Syntax)
    requires
        tree.sound_at(origin, parser.rows(), parser.cols()),
    ensures
        parser.formula(tree.text(origin), origin) == Ok::<Syntax, ParseError>(tree),
{
    let s = tree.text(origin);
    assert(s.subrange(0, s.len() as int) =~= s);
    sum_reads(parser, origin, tree, s, 0, 0);
    expression_tail_ends(parser, s, s.len() as int, tree, origin);
}

/// Whether `host` reads the literal `t` as `n` and as no other number.
pub open spec fn reads_only<H: Fn(Request) -> Reply>(host: &H, t: Seq<char>, n: Number) -> bool {
    forall|m: Number| #[trigger] reads_literal(host, t, m) ==> m == n
}

/// Whether `host` keeps the number `n`: whatever it writes for `n` is a
/// number as the grammar writes numbers, and is read by it as `n` and as no
/// other number.
pub open spec fn keeps_number<H: Fn(Request) -> Reply>(host: &H, n: Number) -> bool {
    forall|t: Seq<char>| #[trigger] writes_number(host, n, t) ==> numeral(t) && reads_only(host, t, n)
}

impl Expression {
    /// Whether `host` keeps every number of the formula.
    pub open spec fn kept_by<H: Fn(Request) -> Reply>(self, host: &H) -> bool
        decreases self,
    {
        match self {
            Expression::Number(n) => keeps_number(host, n),
            Expression::BinaryOp(lhs, _, rhs) => lhs.kept_by(host) && rhs.kept_by(host),
            Expression::Sleep(inner) => inner.kept_by(host),
            _ => true,
        }
    }
}

/// A way to write down a formula that is legal for its cell, with numbers
/// that the host keeps, can be read again.
pub proof fn written_is_sound<H: Fn(Request) -> Reply>(
    host: &H,
    origin: AbsCell,
    rows: u16,
    cols: u16,
    e: Expression,
    tree: Syntax,
)
    requires
        e.legal_at(origin, rows, cols),
        e.kept_by(host),
        tree.written_from(host, e),
    ensures
        tree.sound_at(origin, rows, cols),
    decreases tree,
{
    match (tree, e) {
        (Syntax::BinaryOp(l, _, r), Expression::BinaryOp(lhs, _, rhs)) => {
            written_is_sound(host, origin, rows, cols, *lhs, *l);
            written_is_sound(host, origin, rows, cols, *rhs, *r);
        },
        (Syntax::Sleep(inner), Expression::Sleep(of)) => {
            written_is_sound(host, origin, rows, cols, *of, *inner);
        },
        _ => {},
    }
}

/// What was written down of a formula with numbers that the host keeps is
/// read as that formula and as no other.
pub proof fn read_is_written<H: Fn(Request) -> Reply>(
    host: &H,
    e: Expression,
    tree: Syntax,
    other: Expression,
)
    requires
        e.kept_by(host),
        tree.written_from(host, e),
        tree.read_as(host, other),
    ensures
        other == e,
    decreases tree,
{
    match (tree, e, other) {
        (
            Syntax::BinaryOp(l, _, r),
            Expression::BinaryOp(lhs, _, rhs),
            Expression::BinaryOp(a, _, b),
        ) => {
            read_is_written(host, *lhs, *l, *a);
            read_is_written(host, *rhs, *r, *b);
        },
        (Syntax::Sleep(inner), Expression::Sleep(of), Expression::Sleep(x)) => {
            read_is_written(host, *of, *inner, *x);
        },
        (Syntax::Number(t), Expression::Number(n), Expression::Number(m)) => {
            assert(writes_number(host, n, t));
            assert(reads_literal(host, t, m));
        },
        _ => {},
    }
}

/// Reading what was written gives what was written down: the text of a
/// formula that is legal for its cell, written with numbers that the host
/// keeps, derives a tree that is read as that formula and as no other.
pub proof fn round_trip<H: Fn(Request) -> Reply>(
    parser: FormulaParser,
    host: &H,
    origin: AbsCell,
    e: Expression,
    text: Seq<char>,
)
    requires
        e.legal_at(origin, parser.rows(), parser.cols()),
        e.kept_by(host),
        writes_formula(host, e, origin, text),
    ensures
        parser.formula(text, origin) matches Ok(tree) && tree.written_from(host, e) && (forall|
            other: Expression,
        | #[trigger] tree.read_as(host, other) ==> other == e),
{
    let tree = choose|tree: Syntax| #[trigger]
        tree.written_from(host, e) && text == tree.text(origin);
    written_is_sound(host, origin, parser.rows(), parser.cols(), e, tree);
    formula_reads(parser, origin, tree);
    assert forall|other: Expression| #[trigger] tree.read_as(host, other) implies other == e by {
        read_is_written(host, e, tree, other);
    }
}

} // verus!
