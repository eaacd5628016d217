//! The expression tree of a formula. References are held relative to the cell
//! that owns the formula; the tree carries no evaluation state.
use vstd::prelude::*;
use crate::common::number::{ask_notation, reads_literal, serves, writes_number, Number, Reply, Request};
use crate::common::structs::{fits, AbsCell, RelCell};
use crate::common::text::{column_letters, decimal, from_chars, push_column_letters, push_decimal};

verus! {

/// The operators of arithmetic.
#[derive(Copy, Clone, Debug, Hash, PartialEq, Eq, Structural)]
pub enum Operator {
    Add,
    Subtract,
    Multiply,
    Divide,
}

/// The functions of a range.
#[derive(Copy, Clone, Debug, Hash, PartialEq, Eq, Structural)]
pub enum RangeFunction {
    Min,
    Max,
    Avg,
    Sum,
    Stdev,
}

/// A rectangle of cells by two corners, both relative to the owning cell.
#[derive(Copy, Clone, Debug, Hash, PartialEq, Eq, Structural)]
pub struct CellRange {
    pub top_left: RelCell,
    pub bottom_right: RelCell,
}

/// A formula: a number, a reference to a cell, an operator between two
/// formulas, a function of a range, or the delay of a formula.
#[derive(Debug, PartialEq)]
pub enum Expression {
    Number(Number),
    Cell(RelCell),
    BinaryOp(Box<Expression>, Operator, Box<Expression>),
    RangeFunction(RangeFunction, CellRange),
    Sleep(Box<Expression>),
}

impl Clone for Expression {
    fn clone(&self) -> (copy: Self)
        ensures
            copy == *self,
    {
        self.duplicate()
    }
}

impl CellRange {
    /// Whether the rectangle, counted from `origin`, holds the slot at `row`
    /// and `col`. A range whose first corner does not lie above and left of
    /// its second holds nothing.
    pub open spec fn holds(self, origin: AbsCell, row: int, col: int) -> bool {
        &&& self.top_left.row_at(origin) <= row <= self.bottom_right.row_at(origin)
        &&& self.top_left.col_at(origin) <= col <= self.bottom_right.col_at(origin)
    }

    /// Whether the first corner lies above and left of the second, or on it.
    pub open spec fn ordered(self) -> bool {
        self.top_left.row <= self.bottom_right.row && self.top_left.col <= self.bottom_right.col
    }

    /// Whether the corners are in order and both, counted from `origin`, lie
    /// in the grid; then every cell of the rectangle does.
    pub open spec fn legal_at(self, origin: AbsCell, rows: u16, cols: u16) -> bool {
        &&& self.ordered()
        &&& self.top_left.in_grid_at(origin, rows, cols)
        &&& self.bottom_right.in_grid_at(origin, rows, cols)
    }

    /// Whether both corners, counted from `origin`, can be written as labels.
    pub open spec fn nameable_at(self, origin: AbsCell) -> bool {
        self.top_left.nameable_at(origin) && self.bottom_right.nameable_at(origin)
    }

    /// The text of the range: the labels of its corners with a colon between.
    pub open spec fn text(self, origin: AbsCell) -> Seq<char> {
        self.top_left.label_at(origin) + seq![':'] + self.bottom_right.label_at(origin)
    }

    /// Appends the text of the range to `out`.
    pub fn push_text(&self, out: &mut Vec<char>, cell: AbsCell)
        requires
            self.nameable_at(cell),
        ensures
            final(out)@ == old(out)@ + self.text(cell),
    {
        self.top_left.push_label(out, cell);
        out.push(':');
        self.bottom_right.push_label(out, cell);
        assert(out@ == old(out)@ + self.text(cell));
    }

    /// The text of the range as it stands in a formula of `cell`, such as
    /// `A1:B2`.
    pub fn to_string(&self, cell: AbsCell) -> (s: String)
        requires
            self.nameable_at(cell),
        ensures
            s@ == self.text(cell),
    {
        let mut out: Vec<char> = Vec::new();
        self.push_text(&mut out, cell);
        from_chars(&out)
    }
}

impl Operator {
    /// The character that writes the operator.
    pub open spec fn symbol(self) -> char {
        match self {
            Operator::Add => '+',
            Operator::Subtract => '-',
            Operator::Multiply => '*',
            Operator::Divide => '/',
        }
    }

    /// How tightly the operator binds: 0 for `+` and `-`, 1 for `*` and `/`.
    pub open spec fn level(self) -> nat {
        match self {
            Operator::Add | Operator::Subtract => 0,
            Operator::Multiply | Operator::Divide => 1,
        }
    }

    /// The character that writes the operator.
    pub fn to_char(&self) -> (c: char)
        ensures
            c == self.symbol(),
    {
        match self {
            Operator::Add => '+',
            Operator::Subtract => '-',
            Operator::Multiply => '*',
            Operator::Divide => '/',
        }
    }

    /// How tightly the operator binds.
    pub fn binding(&self) -> (level: u8)
        ensures
            level == self.level(),
    {
        match self {
            Operator::Add | Operator::Subtract => 0,
            Operator::Multiply | Operator::Divide => 1,
        }
    }
}

impl RangeFunction {
    /// The name of the function as it is written in a formula.
    pub open spec fn name(self) -> Seq<char> {
        match self {
            RangeFunction::Min => seq!['M', 'I', 'N'],
            RangeFunction::Max => seq!['M', 'A', 'X'],
            RangeFunction::Avg => seq!['A', 'V', 'G'],
            RangeFunction::Sum => seq!['S', 'U', 'M'],
            RangeFunction::Stdev => seq!['S', 'T', 'D', 'E', 'V'],
        }
    }

    /// Appends the name of the function to `out`.
    pub fn push_name(&self, out: &mut Vec<char>)
        ensures
            final(out)@ == old(out)@ + self.name(),
    {
        match self {
            RangeFunction::Min => {
                out.push('M');
                out.push('I');
                out.push('N');
            },
            RangeFunction::Max => {
                out.push('M');
                out.push('A');
                out.push('X');
            },
            RangeFunction::Avg => {
                out.push('A');
                out.push('V');
                out.push('G');
            },
            RangeFunction::Sum => {
                out.push('S');
                out.push('U');
                out.push('M');
            },
            RangeFunction::Stdev => {
                out.push('S');
                out.push('T');
                out.push('D');
                out.push('E');
                out.push('V');
            },
        }
        assert(out@ == old(out)@ + self.name());
    }
}

/// Whether `text` is a way to write `formula` down for the cell `cell`: the
/// text of the tree of the formula with, for each number, a notation that
/// `host` gives for it.
pub open spec fn writes_formula<H: Fn(Request) -> Reply>(
    host: &H,
    formula: Expression,
    cell: AbsCell,
    text: Seq<char>,
) -> bool {
    exists|tree: Syntax| #[trigger] tree.written_from(host, formula) && text == tree.text(cell)
}

/// What a sequence holds after a push: what it held, and what was pushed.
pub proof fn pushed_or_held(before: Seq<AbsCell>, pushed: AbsCell, c: AbsCell)
    ensures
        before.push(pushed).contains(c) <==> before.contains(c) || c == pushed,
{
    let after = before.push(pushed);
    if before.contains(c) {
        let k = choose|k: int| 0 <= k < before.len() && before[k] == c;
        assert(after[k] == c);
    }
    if c == pushed {
        assert(after[before.len() as int] == c);
    }
    if after.contains(c) {
        let k = choose|k: int| 0 <= k < after.len() && after[k] == c;
        if k < before.len() {
            assert(before[k] == c);
        }
    }
}

/// The name under which a formula asks for a delay.
pub open spec fn sleep_name() -> Seq<char> {
    seq!['S', 'L', 'E', 'E', 'P']
}

/// A formula as it is written: the tree of an expression with each number
/// as the text of its literal.
pub enum Syntax {
    Number(Seq<char>),
    Cell(RelCell),
    BinaryOp(Box<Syntax>, Operator, Box<Syntax>),
    RangeFunction(RangeFunction, CellRange),
    Sleep(Box<Syntax>),
}

impl Syntax {
    /// Whether `expression` has the shape of this tree, each of its numbers
    /// being one that `host` may read from the literal in its place.
    pub open spec fn read_as<H: Fn(Request) -> Reply>(
        self,
        host: &H,
        expression: Expression,
    ) -> bool
        decreases self,
    {
        match (self, expression) {
            (Syntax::Number(text), Expression::Number(n)) => reads_literal(host, text, n),
            (Syntax::Cell(a), Expression::Cell(b)) => a == b,
            (Syntax::BinaryOp(l, op, r), Expression::BinaryOp(lhs, operator, rhs)) => {
                &&& l.read_as(host, *lhs)
                &&& op == operator
                &&& r.read_as(host, *rhs)
            },
            (Syntax::RangeFunction(f, a), Expression::RangeFunction(g, b)) => f == g && a == b,
            (Syntax::Sleep(inner), Expression::Sleep(e)) => inner.read_as(host, *e),
            _ => false,
        }
    }

    /// Whether this tree has the shape of `expression`, each of its literals
    /// being one that `host` may write for the number in its place.
    pub open spec fn written_from<H: Fn(Request) -> Reply>(
        self,
        host: &H,
        expression: Expression,
    ) -> bool
        decreases self,
    {
        match (self, expression) {
            (Syntax::Number(text), Expression::Number(n)) => writes_number(host, n, text),
            (Syntax::Cell(a), Expression::Cell(b)) => a == b,
            (Syntax::BinaryOp(l, op, r), Expression::BinaryOp(lhs, operator, rhs)) => {
                &&& l.written_from(host, *lhs)
                &&& op == operator
                &&& r.written_from(host, *rhs)
            },
            (Syntax::RangeFunction(f, a), Expression::RangeFunction(g, b)) => f == g && a == b,
            (Syntax::Sleep(inner), Expression::Sleep(e)) => inner.written_from(host, *e),
            _ => false,
        }
    }

    /// How tightly the outermost construct binds: an operator by its level,
    /// everything else tighter than any operator.
    pub open spec fn level(self) -> nat {
        match self {
            Syntax::BinaryOp(_, op, _) => op.level(),
            _ => 2,
        }
    }

    /// The text of the formula as owned by `origin`, without brackets around
    /// the whole. An operator stands between spaces; its left operand is
    /// bracketed where it binds less tightly, its right operand where it does
    /// not bind more tightly.
    pub open spec fn text(self, origin: AbsCell) -> Seq<char>
        decreases self, 0nat,
    {
        match self {
            Syntax::Number(text) => text,
            Syntax::Cell(rel) => rel.label_at(origin),
            Syntax::BinaryOp(l, op, r) => l.text_within(origin, op.level()) + seq![
                ' ',
                op.symbol(),
                ' ',
            ] + r.text_within(origin, op.level() + 1),
            Syntax::RangeFunction(f, range) => f.name() + seq!['('] + range.text(origin) + seq![
                ')',
            ],
            Syntax::Sleep(inner) => sleep_name() + seq!['('] + inner.text(origin) + seq![')'],
        }
    }

    /// The text of the formula where a construct of level `min` or tighter
    /// is expected: bracketed if it binds less tightly.
    pub open spec fn text_within(self, origin: AbsCell, min: nat) -> Seq<char>
        decreases self, 1nat,
    {
        if self.level() < min {
            seq!['('] + self.text(origin) + seq![')']
        } else {
            self.text(origin)
        }
    }
}

impl Expression {
    /// Whether the formula, owned by `origin`, reads the slot at `row` and
    /// `col`: by a reference to it, or by a range that holds it.
    pub open spec fn references(self, origin: AbsCell, row: int, col: int) -> bool
        decreases self,
    {
        match self {
            Expression::Number(_) => false,
            Expression::Cell(rel) => row == rel.row_at(origin) && col == rel.col_at(origin),
            Expression::BinaryOp(lhs, _, rhs) => lhs.references(origin, row, col) || rhs.references(
                origin,
                row,
                col,
            ),
            Expression::RangeFunction(_, range) => range.holds(origin, row, col),
            Expression::Sleep(inner) => inner.references(origin, row, col),
        }
    }

    /// Whether the formula, owned by `origin`, reads the cell `cell`.
    pub open spec fn reads(self, origin: AbsCell, cell: AbsCell) -> bool {
        self.references(origin, cell.row as int, cell.col as int)
    }

    /// Whether the formula can be owned by `origin` in a grid of `rows` rows and
    /// `cols` columns: every reference lies in the grid, and every range has
    /// its corners in order and in the grid.
    pub open spec fn legal_at(self, origin: AbsCell, rows: u16, cols: u16) -> bool
        decreases self,
    {
        match self {
            Expression::Number(_) => true,
            Expression::Cell(rel) => rel.in_grid_at(origin, rows, cols),
            Expression::BinaryOp(lhs, _, rhs) => lhs.legal_at(origin, rows, cols) && rhs.legal_at(
                origin,
                rows,
                cols,
            ),
            Expression::RangeFunction(_, range) => range.legal_at(origin, rows, cols),
            Expression::Sleep(inner) => inner.legal_at(origin, rows, cols),
        }
    }

    /// Whether every reference and every corner of a range, counted from
    /// `origin`, can be written as a label.
    pub open spec fn nameable_at(self, origin: AbsCell) -> bool
        decreases self,
    {
        match self {
            Expression::Number(_) => true,
            Expression::Cell(rel) => rel.nameable_at(origin),
            Expression::BinaryOp(lhs, _, rhs) => lhs.nameable_at(origin) && rhs.nameable_at(origin),
            Expression::RangeFunction(_, range) => range.nameable_at(origin),
            Expression::Sleep(inner) => inner.nameable_at(origin),
        }
    }

    /// Whether the formula can be owned by `origin` in a grid of `rows` rows and
    /// `cols` columns.
    pub fn check_legal(&self, origin: AbsCell, rows: u16, cols: u16) -> (b: bool)
        ensures
            b == self.legal_at(origin, rows, cols),
        decreases self,
    {
        match self {
            Expression::Number(_) => true,
            Expression::Cell(rel) => rel.resolve(origin, rows, cols).is_some(),
            Expression::BinaryOp(lhs, _, rhs) => lhs.check_legal(origin, rows, cols)
                && rhs.check_legal(origin, rows, cols),
            Expression::RangeFunction(_, range) => range.top_left.row <= range.bottom_right.row
                && range.top_left.col <= range.bottom_right.col && range.top_left.resolve(
                origin,
                rows,
                cols,
            ).is_some() && range.bottom_right.resolve(origin, rows, cols).is_some(),
            Expression::Sleep(inner) => inner.check_legal(origin, rows, cols),
        }
    }

    /// Appends to `referenced` every cell that the formula, owned by `cell`,
    /// reads: the cell of each reference and every cell of each range.
    pub fn collect_referenced_cells(&self, cell: AbsCell, referenced: &mut Vec<AbsCell>)
        requires
            self.nameable_at(cell),
        ensures
            forall|c: AbsCell|
                #[trigger] final(referenced)@.contains(c) <==> old(referenced)@.contains(c)
                    || self.reads(cell, c),
        decreases self,
    {
        match self {
            Expression::Number(_) => {},
            Expression::Cell(rel) => {
                let target = rel.to_abs(cell);
                referenced.push(target);
                assert forall|c: AbsCell|
                    #[trigger] referenced@.contains(c) <==> old(referenced)@.contains(c)
                        || self.reads(cell, c) by {
                    pushed_or_held(old(referenced)@, target, c);
                }
            },
            Expression::BinaryOp(lhs, _, rhs) => {
                lhs.collect_referenced_cells(cell, referenced);
                rhs.collect_referenced_cells(cell, referenced);
            },
            Expression::RangeFunction(_, range) => {
                let top: i32 = cell.row as i32 + range.top_left.row as i32;
                let left: i32 = cell.col as i32 + range.top_left.col as i32;
                let bottom: i32 = cell.row as i32 + range.bottom_right.row as i32;
                let right: i32 = cell.col as i32 + range.bottom_right.col as i32;
                let mut row: i32 = top;
                while row <= bottom
                    invariant
                        0 <= top <= i16::MAX,
                        0 <= left <= i16::MAX,
                        0 <= bottom <= i16::MAX,
                        0 <= right <= i16::MAX,
                        top <= row,
                        row <= bottom + 1 || row == top,
                        forall|c: AbsCell|
                            #[trigger] referenced@.contains(c) <==> old(referenced)@.contains(c)
                                || (top <= c.row < row && left <= c.col <= right),
                    decreases bottom + 1 - row,
                {
                    let mut col: i32 = left;
                    while col <= right
                        invariant
                            0 <= top <= i16::MAX,
                            0 <= left <= i16::MAX,
                            0 <= bottom <= i16::MAX,
                            0 <= right <= i16::MAX,
                            top <= row <= bottom,
                            left <= col,
                            col <= right + 1 || col == left,
                            forall|c: AbsCell|
                                #[trigger] referenced@.contains(c) <==> old(referenced)@.contains(c)
                                    || (top <= c.row < row && left <= c.col <= right) || (c.row
                                    == row && left <= c.col < col),
                        decreases right + 1 - col,
                    {
                        let target = AbsCell { row: row as i16, col: col as i16 };
                        let ghost before = referenced@;
                        referenced.push(target);
                        assert forall|c: AbsCell|
                            #[trigger] referenced@.contains(c) <==> old(referenced)@.contains(c)
                                || (top <= c.row < row && left <= c.col <= right) || (c.row == row
                                && left <= c.col < col + 1) by {
                            pushed_or_held(before, target, c);
                        }
                        col = col + 1;
                    }
                    assert forall|c: AbsCell|
                        #[trigger] referenced@.contains(c) <==> old(referenced)@.contains(c) || (top
                            <= c.row < row + 1 && left <= c.col <= right) by {}
                    row = row + 1;
                }
                assert forall|c: AbsCell|
                    #[trigger] referenced@.contains(c) <==> old(referenced)@.contains(c)
                        || self.reads(cell, c) by {}
            },
            Expression::Sleep(inner) => {
                inner.collect_referenced_cells(cell, referenced);
            },
        }
    }

    /// A formula that is legal for a cell can be written down.
    pub proof fn legal_is_nameable(self, origin: AbsCell, rows: u16, cols: u16)
        requires
            self.legal_at(origin, rows, cols),
        ensures
            self.nameable_at(origin),
        decreases self,
    {
        match self {
            Expression::BinaryOp(lhs, _, rhs) => {
                lhs.legal_is_nameable(origin, rows, cols);
                rhs.legal_is_nameable(origin, rows, cols);
            },
            Expression::Sleep(inner) => {
                inner.legal_is_nameable(origin, rows, cols);
            },
            _ => {},
        }
    }

    /// How tightly the outermost construct binds: an operator by its level,
    /// everything else tighter than any operator.
    pub open spec fn level(self) -> nat {
        match self {
            Expression::BinaryOp(_, op, _) => op.level(),
            _ => 2,
        }
    }

    /// How tightly the outermost construct binds.
    pub fn binding(&self) -> (level: u8)
        ensures
            level == self.level(),
    {
        match self {
            Expression::BinaryOp(_, op, _) => op.binding(),
            _ => 2,
        }
    }

    /// Appends the text of the formula, as owned by `cell`, without brackets
    /// around the whole; `host` writes the numbers. The result is the formula
    /// as it was written.
    pub fn push_plain<H: Fn(Request) -> Reply>(
        &self,
        out: &mut Vec<char>,
        cell: AbsCell,
        host: &H,
    ) -> (tree: Ghost<Syntax>)
        requires
            serves(host),
            self.nameable_at(cell),
        ensures
            tree@.written_from(host, *self),
            final(out)@ == old(out)@ + tree@.text(cell),
        decreases self, 0nat,
    {
        match self {
            Expression::Number(n) => {
                let mut text = ask_notation(host, *n);
                let tree = Ghost(Syntax::Number(text@));
                out.append(&mut text);
                tree
            },
            Expression::Cell(rel) => {
                rel.push_label(out, cell);
                Ghost(Syntax::Cell(*rel))
            },
            Expression::BinaryOp(lhs, op, rhs) => {
                let l = lhs.push_text(out, cell, host, op.binding());
                let ghost first = out@;
                out.push(' ');
                out.push(op.to_char());
                out.push(' ');
                assert(out@ =~= first + seq![' ', op.symbol(), ' ']);
                let ghost second = out@;
                let r = rhs.push_text(out, cell, host, op.binding() + 1);
                let tree = Ghost(Syntax::BinaryOp(Box::new(l@), *op, Box::new(r@)));
                assert(out@ =~= old(out)@ + tree@.text(cell));
                tree
            },
            Expression::RangeFunction(func, range) => {
                func.push_name(out);
                let ghost first = out@;
                out.push('(');
                assert(out@ =~= first + seq!['(']);
                range.push_text(out, cell);
                let ghost second = out@;
                out.push(')');
                assert(out@ =~= second + seq![')']);
                let tree = Ghost(Syntax::RangeFunction(*func, *range));
                assert(out@ =~= old(out)@ + tree@.text(cell));
                tree
            },
            Expression::Sleep(inner) => {
                out.push('S');
                out.push('L');
                out.push('E');
                out.push('E');
                out.push('P');
                out.push('(');
                assert(out@ =~= old(out)@ + sleep_name() + seq!['(']);
                let i = inner.push_plain(out, cell, host);
                let ghost second = out@;
                out.push(')');
                assert(out@ =~= second + seq![')']);
                let tree = Ghost(Syntax::Sleep(Box::new(i@)));
                assert(out@ =~= old(out)@ + tree@.text(cell));
                tree
            },
        }
    }

    /// Appends the text of the formula, as owned by `cell`, where a construct
    /// of level `min` or tighter is expected; `host` writes the numbers. The
    /// result is the formula as it was written.
    pub fn push_text<H: Fn(Request) -> Reply>(
        &self,
        out: &mut Vec<char>,
        cell: AbsCell,
        host: &H,
        min: u8,
    ) -> (tree: Ghost<Syntax>)
        requires
            serves(host),
            self.nameable_at(cell),
        ensures
            tree@.written_from(host, *self),
            final(out)@ == old(out)@ + tree@.text_within(cell, min as nat),
        decreases self, 1nat,
    {
        if self.binding() < min {
            out.push('(');
            let ghost first = out@;
            assert(first =~= old(out)@ + seq!['(']);
            let tree = self.push_plain(out, cell, host);
            let ghost second = out@;
            out.push(')');
            assert(out@ =~= second + seq![')']);
            assert(tree@.level() == self.level());
            assert(out@ =~= old(out)@ + tree@.text_within(cell, min as nat));
            tree
        } else {
            let tree = self.push_plain(out, cell, host);
            assert(tree@.level() == self.level());
            tree
        }
    }

    /// The text of the formula as owned by `cell`; `host` writes the numbers.
    pub fn to_string<H: Fn(Request) -> Reply>(&self, cell: AbsCell, host: &H) -> (s: String)
        requires
            serves(host),
            self.nameable_at(cell),
        ensures
            writes_formula(host, *self, cell, s@),
    {
        let mut out: Vec<char> = Vec::new();
        let tree = self.push_plain(&mut out, cell, host);
        assert(tree@.written_from(host, *self) && out@ == tree@.text(cell));
        from_chars(&out)
    }

    /// A copy of the tree.
    pub fn duplicate(&self) -> (copy: Expression)
        ensures
            copy == *self,
        decreases self,
    {
        match self {
            Expression::Number(n) => Expression::Number(*n),
            Expression::Cell(rel) => Expression::Cell(*rel),
            Expression::BinaryOp(lhs, op, rhs) => Expression::BinaryOp(
                Box::new(lhs.duplicate()),
                *op,
                Box::new(rhs.duplicate()),
            ),
            Expression::RangeFunction(func, range) => Expression::RangeFunction(*func, *range),
            Expression::Sleep(inner) => Expression::Sleep(Box::new(inner.duplicate())),
        }
    }

    /// A formula moved from one owner to another reads the slots that it read
    /// before, each shifted by the way from the old owner to the new one.
    pub proof fn copy_shifts_references(self, from: AbsCell, to: AbsCell, row: int, col: int)
        ensures
            self.references(from, row, col) <==> self.references(
                to,
                row + (to.row - from.row),
                col + (to.col - from.col),
            ),
        decreases self,
    {
        match self {
            Expression::BinaryOp(lhs, _, rhs) => {
                lhs.copy_shifts_references(from, to, row, col);
                rhs.copy_shifts_references(from, to, row, col);
            },
            Expression::Sleep(inner) => {
                inner.copy_shifts_references(from, to, row, col);
            },
            _ => {},
        }
    }
}

} // verus!
