//! The controller between a front end and the store. Most of what it offers
//! is the store's; its own part is the history of edits, which lets an edit
//! be taken back and made again.
use vstd::prelude::*;
use crate::common::cell_value::{CellData, CellError, CellValue, Content};
use crate::common::expression::{Expression, Syntax};
use crate::common::number::{chosen, serves, single_valued, Reply, Request};
use crate::embedded_backend::graph::{acyclic, connected, Edge};
use crate::embedded_backend::storage::settled_sheets_agree;
use crate::parser::round_trip::round_trip;
use crate::common::structs::AbsCell;
use crate::common::text::ParseError;
use crate::embedded_backend::storage::{recorded, rectangle, Sheet, Storage, StorageError};
use crate::embedded_backend::structs::{Action, CellInput, Edit, Input};
use crate::parser::formula_parser::FormulaParser;

verus! {

/// Why a formula was not taken.
#[derive(Debug, Copy, Clone, PartialEq, Eq, Structural)]
pub enum ExpressionError {
    /// The text is no formula: the grammar does not derive it, or it names
    /// a function that there is not.
    InvalidExpression,
    /// The formula would make a cell depend on itself.
    CircularReference,
    /// A label names no cell, or the formula reads a cell outside the grid.
    InvalidCell,
    /// A range has its corners out of order or outside the grid.
    InvalidRange,
}

/// The error that the controller answers with when the parser refuses a
/// text.
pub open spec fn refusal(e: ParseError) -> ExpressionError {
    match e {
        ParseError::InvalidCell => ExpressionError::InvalidCell,
        ParseError::InvalidFormula => ExpressionError::InvalidExpression,
        ParseError::InvalidRange => ExpressionError::InvalidRange,
    }
}

/// The controller: a store, the parser for its grid, and the history of the
/// edits that were made through the controller.
pub struct EmbeddedBackend {
    storage: Storage,
    parser: FormulaParser,
    undo_stack: Vec<Action>,
    redo_stack: Vec<Action>,
}

/// The controller as a mathematical value: the sheet, the edits that can be
/// taken back, the last one last, and the edits that can be made again, the
/// next one last.
pub struct Desk {
    pub sheet: Sheet,
    pub undo: Seq<Edit>,
    pub redo: Seq<Edit>,
}

/// The edits of a stack of actions.
pub open spec fn edits(stack: Seq<Action>) -> Seq<Edit> {
    Seq::new(stack.len(), |i: int| stack[i]@)
}

/// Whether `after` is `before` with the formula `e` given to `cell`: with
/// the formula in place and the formulas evaluated again, or unchanged where
/// the store refuses the formula.
pub open spec fn installed(before: Sheet, cell: AbsCell, e: Expression, after: Sheet) -> bool {
    if before.verdict(cell, e) == StorageError::Success {
        after.recomputed_from(before.with_formula(cell, e))
    } else {
        after == before
    }
}

/// Whether `after` is `before` with the formula that `tree` writes given to
/// `cell`, `host` reading the numbers.
pub open spec fn formula_restored<H: Fn(Request) -> Reply>(
    host: &H,
    before: Sheet,
    cell: AbsCell,
    tree: Syntax,
    after: Sheet,
) -> bool {
    exists|e: Expression| #[trigger] chosen(e) && tree.read_as(host, e) && installed(before, cell, e, after)
}

/// Whether `after` is `before` with `input` given to `cell` again: a value
/// as by setting the value; a formula as by reading its text and setting the
/// formula, the sheet staying as it is where the text or the formula is
/// refused.
pub open spec fn restored<H: Fn(Request) -> Reply>(
    host: &H,
    parser: FormulaParser,
    before: Sheet,
    cell: AbsCell,
    input: Input,
    after: Sheet,
) -> bool {
    match input {
        Input::Value(value) => after.recomputed_from(before.with_value(cell, value)),
        Input::Formula(text) => match parser.formula(text, cell) {
            Err(_) => after == before,
            Ok(tree) => formula_restored(host, before, cell, tree, after),
        },
    }
}

/// Whether `after` with the answer `outcome` is what entering the formula
/// `e` for `cell` makes of `before`: where the store takes the formula, the
/// sheet with the formula in place and evaluated again, one more edit to
/// take back, which records what the cell was given before and after, and
/// none to make again; where it refuses, the error and no change.
pub open spec fn entered<H: Fn(Request) -> Reply>(
    host: &H,
    before: Desk,
    cell: AbsCell,
    e: Expression,
    outcome: Result<(), ExpressionError>,
    after: Desk,
) -> bool {
    match before.sheet.verdict(cell, e) {
        StorageError::Success => {
            &&& outcome is Ok
            &&& after.sheet.recomputed_from(before.sheet.with_formula(cell, e))
            &&& after.redo.len() == 0
            &&& after.undo.len() == before.undo.len() + 1
            &&& after.undo.drop_last() == before.undo
            &&& after.undo.last().cell == cell
            &&& before.sheet.given(host, cell, after.undo.last().before)
            &&& after.sheet.given(host, cell, after.undo.last().after)
        },
        StorageError::CircularDependency => outcome == Err::<(), ExpressionError>(
            ExpressionError::CircularReference,
        ) && after == before,
        StorageError::InvalidCell => outcome == Err::<(), ExpressionError>(
            ExpressionError::InvalidCell,
        ) && after == before,
    }
}

/// Whether `after` with the answer `outcome` is what entering the formula
/// that `tree` writes makes of `before`, `host` reading the numbers.
pub open spec fn formula_entered<H: Fn(Request) -> Reply>(
    host: &H,
    before: Desk,
    cell: AbsCell,
    tree: Syntax,
    outcome: Result<(), ExpressionError>,
    after: Desk,
) -> bool {
    exists|e: Expression| #[trigger]
        chosen(e) && tree.read_as(host, e) && entered(host, before, cell, e, outcome, after)
}

/// Whether `after` is `before` with its last edit taken back: the cell of
/// the edit is given again what it was given before the edit, and the edit
/// has moved from the edits to take back to the edits to make again.
pub open spec fn undone<H: Fn(Request) -> Reply>(
    host: &H,
    parser: FormulaParser,
    before: Desk,
    after: Desk,
) -> bool {
    &&& before.undo.len() > 0
    &&& after.undo == before.undo.drop_last()
    &&& after.redo == before.redo.push(before.undo.last())
    &&& restored(
        host,
        parser,
        before.sheet,
        before.undo.last().cell,
        before.undo.last().before,
        after.sheet,
    )
}

/// Whether `after` is `before` with the edit that was taken back last made
/// again: the cell of the edit is given again what the edit gave it, and the
/// edit has moved from the edits to make again to the edits to take back.
pub open spec fn redone<H: Fn(Request) -> Reply>(
    host: &H,
    parser: FormulaParser,
    before: Desk,
    after: Desk,
) -> bool {
    &&& before.redo.len() > 0
    &&& after.redo == before.redo.drop_last()
    &&& after.undo == before.undo.push(before.redo.last())
    &&& restored(
        host,
        parser,
        before.sheet,
        before.redo.last().cell,
        before.redo.last().after,
        after.sheet,
    )
}

/// Whether `after` is `before` with its last `n` edits taken back, one after
/// another.
pub open spec fn undone_times<H: Fn(Request) -> Reply>(
    host: &H,
    parser: FormulaParser,
    n: nat,
    before: Desk,
    after: Desk,
) -> bool
    decreases n,
{
    if n == 0 {
        after == before
    } else {
        exists|between: Desk| #[trigger]
            chosen(between) && undone(host, parser, before, between) && undone_times(
                host,
                parser,
                (n - 1) as nat,
                between,
                after,
            )
    }
}

/// Whether `after` is `before` with `n` edits made again, one after another.
pub open spec fn redone_times<H: Fn(Request) -> Reply>(
    host: &H,
    parser: FormulaParser,
    n: nat,
    before: Desk,
    after: Desk,
) -> bool
    decreases n,
{
    if n == 0 {
        after == before
    } else {
        exists|between: Desk| #[trigger]
            chosen(between) && redone(host, parser, before, between) && redone_times(
                host,
                parser,
                (n - 1) as nat,
                between,
                after,
            )
    }
}

/// Taking edits back and making as many again leaves the history as it was:
/// the same edits to take back, the same edits to make again.
pub proof fn history_returns<H: Fn(Request) -> Reply>(
    host: &H,
    parser: FormulaParser,
    n: nat,
    start: Desk,
    middle: Desk,
    end: Desk,
)
    requires
        undone_times(host, parser, n, start, middle),
        redone_times(host, parser, n, middle, end),
    ensures
        end.undo == start.undo,
        end.redo == start.redo,
    decreases n,
{
    if n > 0 {
        let first = choose|between: Desk| #[trigger]
            chosen(between) && undone(host, parser, start, between) && undone_times(
                host,
                parser,
                (n - 1) as nat,
                between,
                middle,
            );
        let last = made_again(host, parser, (n - 1) as nat, middle, end);
        history_returns(host, parser, (n - 1) as nat, first, middle, last);
        assert(start.redo.push(start.undo.last()).drop_last() =~= start.redo);
        assert(start.undo.drop_last().push(start.undo.last()) =~= start.undo);
    }
}

/// Making `n` edits again can be split into making `n - 1` of them and then
/// the last.
pub proof fn made_again<H: Fn(Request) -> Reply>(
    host: &H,
    parser: FormulaParser,
    n: nat,
    before: Desk,
    after: Desk,
) -> (last: Desk)
    requires
        redone_times(host, parser, (n + 1) as nat, before, after),
    ensures
        redone_times(host, parser, n, before, last),
        redone(host, parser, last, after),
    decreases n,
{
    let between = choose|between: Desk| #[trigger]
        chosen(between) && redone(host, parser, before, between) && redone_times(
            host,
            parser,
            n,
            between,
            after,
        );
    if n == 0 {
        before
    } else {
        let last = made_again(host, parser, (n - 1) as nat, between, after);
        assert(chosen(between));
        last
    }
}

/// Whether `cell` was given the same in two sheets: it holds something in
/// both or in neither, it has the same formula, and where it has none it
/// holds the same.
pub open spec fn same_input(a: Sheet, b: Sheet, cell: AbsCell) -> bool {
    &&& a.cells.contains_key(cell) == b.cells.contains_key(cell)
    &&& a.formula(cell) == b.formula(cell)
    &&& (a.formula(cell) is None ==> a.record(cell) == b.record(cell))
}

/// Giving a cell something again leaves what the other cells were given.
pub proof fn restored_keeps_others<H: Fn(Request) -> Reply>(
    host: &H,
    parser: FormulaParser,
    before: Sheet,
    cell: AbsCell,
    input: Input,
    after: Sheet,
)
    requires
        restored(host, parser, before, cell, input, after),
    ensures
        after.rows == before.rows,
        after.cols == before.cols,
        forall|other: AbsCell| other != cell ==> #[trigger] same_input(after, before, other),
{
    match input {
        Input::Value(value) => {
            let given = before.with_value(cell, value);
            after.given_value_stays(before, cell, value);
            assert(after.cells.dom() =~= given.cells.dom());
            assert forall|other: AbsCell| other != cell implies #[trigger] same_input(
                after,
                before,
                other,
            ) by {
                assert(given.cells.contains_key(other) == before.cells.contains_key(other));
                assert(after.cells.dom().contains(other) == given.cells.dom().contains(other));
                assert(after.record(other) == after.record(other));
            }
        },
        Input::Formula(text) => {
            match parser.formula(text, cell) {
                Err(_) => {},
                Ok(tree) => {
                    let e = choose|e: Expression| #[trigger]
                        chosen(e) && tree.read_as(host, e) && installed(before, cell, e, after);
                    if before.verdict(cell, e) == StorageError::Success {
                        let given = before.with_formula(cell, e);
                        after.given_formula_stays(before, cell, e);
                        assert(after.cells.dom() =~= given.cells.dom());
                        assert forall|other: AbsCell| other != cell implies #[trigger] same_input(
                            after,
                            before,
                            other,
                        ) by {
                            assert(given.cells.contains_key(other) == before.cells.contains_key(
                                other,
                            ));
                            assert(after.cells.dom().contains(other) == given.cells.dom().contains(
                                other,
                            ));
                            assert(after.record(other) == after.record(other));
                        }
                    }
                },
            }
        },
    }
}

/// Taking an edit back and making it again leaves everything as it was: the
/// sheet, the edits to take back and the edits to make again.
///
/// This holds where the edit stands in the sheet, that is, where its cell
/// is given what the edit gave it; where the sheets before and after are
/// settled; and where the host answers with one value only and keeps the
/// numbers of the formula that the edit gave.
pub proof fn undo_then_redo<H: Fn(Request) -> Reply>(
    host: &H,
    parser: FormulaParser,
    start: Desk,
    middle: Desk,
    end: Desk,
)
    requires
        start.sheet.wf(),
        parser.rows() == start.sheet.rows,
        parser.cols() == start.sheet.cols,
        start.sheet.consistent(host),
        end.sheet.consistent(host),
        single_valued(host),
        undone(host, parser, start, middle),
        redone(host, parser, middle, end),
        start.sheet.given(host, start.undo.last().cell, start.undo.last().after),
        start.sheet.formula(start.undo.last().cell) matches Some(f) ==> f.kept_by(host),
    ensures
        end == start,
{
    let edit = start.undo.last();
    let cell = edit.cell;
    let s = start.sheet;
    let m = middle.sheet;
    let e = end.sheet;
    assert(middle.redo.last() == edit);
    assert(start.redo.push(edit).drop_last() =~= start.redo);
    assert(start.undo.drop_last().push(edit) =~= start.undo);
    restored_keeps_others(host, parser, s, cell, edit.before, m);
    restored_keeps_others(host, parser, m, cell, edit.after, e);
    assert forall|other: AbsCell| other != cell implies #[trigger] same_input(e, s, other) by {
        assert(same_input(e, m, other));
        assert(same_input(m, s, other));
    }
    assert(same_input(e, s, cell)) by {
        match edit.after {
            Input::Value(value) => {
                e.given_value_stays(m, cell, value);
                assert(s.formula(cell) is None);
                let given = m.with_value(cell, value);
                assert(e.cells.dom() =~= given.cells.dom());
                assert(e.cells.dom().contains(cell) == given.cells.dom().contains(cell));
                if s.cells.contains_key(cell) {
                    assert(s.cells[cell] != crate::common::cell_value::Record::blank());
                }
            },
            Input::Formula(text) => {
                let f = s.formula(cell)->Some_0;
                assert(s.cells.contains_key(cell));
                round_trip(parser, host, cell, f, text);
                let tree = parser.formula(text, cell)->Ok_0;
                let again = choose|x: Expression| #[trigger]
                    chosen(x) && tree.read_as(host, x) && installed(m, cell, x, e);
                assert(again == f);
                let given = m.with_formula(cell, f);
                assert forall|edge: Edge| given.edges().contains(edge) <==> s.edges().contains(
                    edge,
                ) by {
                    if edge.1 != cell {
                        assert(same_input(m, s, edge.1));
                    }
                }
                assert(given.edges() =~= s.edges());
                assert(m.verdict(cell, f) == StorageError::Success);
                e.given_formula_stays(m, cell, f);
                assert(e.cells.dom() =~= given.cells.dom());
                assert(e.cells.dom().contains(cell));
            },
        }
    }
    assert(e.recomputed_from(s)) by {
        assert forall|c: AbsCell| e.cells.dom().contains(c) == s.cells.dom().contains(c) by {
            assert(same_input(e, s, c));
        }
        assert(e.cells.dom() =~= s.cells.dom());
        assert forall|c: AbsCell| #[trigger] s.cells.contains_key(c) implies e.cells[c].formula
            == s.cells[c].formula && (s.cells[c].formula is None ==> e.cells[c] == s.cells[c]) by {
            assert(same_input(e, s, c));
        }
    }
    settled_sheets_agree(host, s, e);
}

/// Whether the last edit of `desk` stands in its sheet: the sheet is sound
/// and settled, and the cell of the edit is given what the edit gave it, a
/// formula with numbers that the host keeps.
pub open spec fn stands<H: Fn(Request) -> Reply>(host: &H, desk: Desk) -> bool {
    &&& desk.sheet.wf()
    &&& desk.sheet.consistent(host)
    &&& desk.undo.len() > 0 ==> desk.sheet.given(
        host,
        desk.undo.last().cell,
        desk.undo.last().after,
    ) && (desk.sheet.formula(desk.undo.last().cell) matches Some(f) ==> f.kept_by(host))
}

/// Whether `after` is `before` with its last `n` edits taken back, one after
/// another, each of them an edit that stood in the sheet.
pub open spec fn taken_back<H: Fn(Request) -> Reply>(
    host: &H,
    parser: FormulaParser,
    n: nat,
    before: Desk,
    after: Desk,
) -> bool
    decreases n,
{
    if n == 0 {
        after == before
    } else {
        stands(host, before) && exists|between: Desk| #[trigger]
            chosen(between) && undone(host, parser, before, between) && taken_back(
                host,
                parser,
                (n - 1) as nat,
                between,
                after,
            )
    }
}

/// Whether `after` is `before` with `n` edits made again, one after another,
/// each time with a settled sheet as the result.
pub open spec fn made_anew<H: Fn(Request) -> Reply>(
    host: &H,
    parser: FormulaParser,
    n: nat,
    before: Desk,
    after: Desk,
) -> bool
    decreases n,
{
    if n == 0 {
        after == before
    } else {
        exists|between: Desk| #[trigger]
            chosen(between) && redone(host, parser, before, between)
                && between.sheet.consistent(host) && made_anew(
                host,
                parser,
                (n - 1) as nat,
                between,
                after,
            )
    }
}

/// Making `n` edits again can be split into making `n - 1` of them and then
/// the last, which ends in a settled sheet.
pub proof fn made_anew_last<H: Fn(Request) -> Reply>(
    host: &H,
    parser: FormulaParser,
    n: nat,
    before: Desk,
    after: Desk,
) -> (last: Desk)
    requires
        made_anew(host, parser, (n + 1) as nat, before, after),
    ensures
        made_anew(host, parser, n, before, last),
        redone(host, parser, last, after),
        after.sheet.consistent(host),
    decreases n,
{
    let between = choose|between: Desk| #[trigger]
        chosen(between) && redone(host, parser, before, between) && between.sheet.consistent(host)
            && made_anew(host, parser, n, between, after);
    if n == 0 {
        before
    } else {
        let last = made_anew_last(host, parser, (n - 1) as nat, between, after);
        assert(chosen(between));
        last
    }
}

/// Taking `n` edits back and making them again leaves everything as it was:
/// the sheet, the edits to take back and the edits to make again.
///
/// This holds where each edit that is taken back stands in the sheet from
/// which it is taken back, where each edit that is made again ends in a
/// settled sheet, and where the host answers with one value only.
pub proof fn undos_then_redos<H: Fn(Request) -> Reply>(
    host: &H,
    parser: FormulaParser,
    n: nat,
    start: Desk,
    middle: Desk,
    end: Desk,
)
    requires
        parser.rows() == start.sheet.rows,
        parser.cols() == start.sheet.cols,
        single_valued(host),
        taken_back(host, parser, n, start, middle),
        made_anew(host, parser, n, middle, end),
    ensures
        end == start,
    decreases n,
{
    if n > 0 {
        let first = choose|between: Desk| #[trigger]
            chosen(between) && undone(host, parser, start, between) && taken_back(
                host,
                parser,
                (n - 1) as nat,
                between,
                middle,
            );
        let last = made_anew_last(host, parser, (n - 1) as nat, middle, end);
        restored_keeps_others(
            host,
            parser,
            start.sheet,
            start.undo.last().cell,
            start.undo.last().before,
            first.sheet,
        );
        undos_then_redos(host, parser, (n - 1) as nat, first, middle, last);
        undo_then_redo(host, parser, start, first, end);
    }
}

/// Whether `text` is how a value is written in a table of separated
/// values: nothing for the empty value, a notation that `host` gives for a
/// number, the text itself for text, and `#ERROR` for an error.
pub open spec fn exported<H: Fn(Request) -> Reply>(
    host: &H,
    value: Result<Content, CellError>,
    text: Seq<char>,
) -> bool {
    match value {
        Ok(Content::Empty) => text.len() == 0,
        Ok(Content::Number(n)) => crate::common::number::writes_number(host, n, text),
        Ok(Content::Text(t)) => text == t,
        Err(_) => text == seq!['#', 'E', 'R', 'R', 'O', 'R'],
    }
}

impl View for EmbeddedBackend {
    type V = Desk;

    closed spec fn view(&self) -> Desk {
        Desk {
            sheet: self.storage@,
            undo: edits(self.undo_stack@),
            redo: edits(self.redo_stack@),
        }
    }
}

impl EmbeddedBackend {
    /// The parser of the controller.
    pub closed spec fn parser(&self) -> FormulaParser {
        self.parser
    }

    /// Whether the controller is sound: its store is, and its parser reads
    /// formulas for the grid of the store.
    pub closed spec fn wf(&self) -> bool {
        &&& self.storage.wf()
        &&& self.parser.rows() == self.storage@.rows
        &&& self.parser.cols() == self.storage@.cols
    }

    /// A controller for an empty grid of `rows` rows and `cols` columns, with
    /// no history.
    pub fn new(rows: u16, cols: u16) -> (backend: Self)
        ensures
            backend.wf(),
            backend@.sheet.rows == rows,
            backend@.sheet.cols == cols,
            backend@.sheet.cells == Map::<AbsCell, crate::common::cell_value::Record>::empty(),
            backend@.undo.len() == 0,
            backend@.redo.len() == 0,
            backend.parser().rows() == rows,
            backend.parser().cols() == cols,
    {
        EmbeddedBackend {
            storage: Storage::new(rows, cols),
            parser: FormulaParser::new(rows, cols),
            undo_stack: Vec::new(),
            redo_stack: Vec::new(),
        }
    }

    /// A controller for the store `storage`, with no history.
    pub fn from_storage(storage: Storage) -> (backend: Self)
        requires
            storage.wf(),
        ensures
            backend.wf(),
            backend@.sheet == storage@,
            backend@.undo.len() == 0,
            backend@.redo.len() == 0,
            backend.parser().rows() == storage@.rows,
            backend.parser().cols() == storage@.cols,
    {
        let parser = FormulaParser::new(storage.rows(), storage.cols());
        EmbeddedBackend { storage, parser, undo_stack: Vec::new(), redo_stack: Vec::new() }
    }

    /// Empties `cell`; the edit can be taken back.
    pub fn set_cell_empty<H: Fn(Request) -> Reply>(&mut self, cell: AbsCell, host: &H)
        requires
            old(self).wf(),
            serves(host),
        ensures
            final(self).wf(),
            final(self).parser() == old(self).parser(),
            old(self)@.sheet.consistent(host) ==> final(self)@.sheet.consistent(host),
            final(self)@.sheet.recomputed_from(old(self)@.sheet.with_value(cell, Content::Empty)),
            final(self)@.redo.len() == 0,
            final(self)@.undo.len() == old(self)@.undo.len() + 1,
            final(self)@.undo.drop_last() == old(self)@.undo,
            final(self)@.undo.last().cell == cell,
            final(self)@.undo.last().after == Input::Value(Content::Empty),
            old(self)@.sheet.given(host, cell, final(self)@.undo.last().before),
            final(self)@.sheet.given(host, cell, final(self)@.undo.last().after),
    {
        self.set_cell_value(cell, CellValue::Empty, host);
    }

    /// Gives `cell` the value `value`; the edit can be taken back, and no
    /// edit is left to make again.
    pub fn set_cell_value<H: Fn(Request) -> Reply>(
        &mut self,
        cell: AbsCell,
        value: CellValue,
        host: &H,
    )
        requires
            old(self).wf(),
            serves(host),
        ensures
            final(self).wf(),
            final(self).parser() == old(self).parser(),
            old(self)@.sheet.consistent(host) ==> final(self)@.sheet.consistent(host),
            final(self)@.sheet.recomputed_from(old(self)@.sheet.with_value(cell, value@)),
            final(self)@.redo.len() == 0,
            final(self)@.undo.len() == old(self)@.undo.len() + 1,
            final(self)@.undo.drop_last() == old(self)@.undo,
            final(self)@.undo.last().cell == cell,
            final(self)@.undo.last().after == Input::Value(value@),
            old(self)@.sheet.given(host, cell, final(self)@.undo.last().before),
            final(self)@.sheet.given(host, cell, final(self)@.undo.last().after),
    {
        let before = self.storage.get_input(cell, host);
        let after = CellInput::Value(value.clone());
        let action = Action { cell, old_value: before, new_value: after };
        self.storage.set_value(cell, value, host);
        self.undo_stack.push(action);
        self.redo_stack.clear();
        proof {
            assert(edits(self.undo_stack@).drop_last() =~= edits(old(self).undo_stack@));
            self.storage@.given_value_stays(old(self).storage@, cell, value@);
        }
    }

    /// The value of `cell`.
    pub fn get_cell_value(&self, cell: AbsCell) -> (value: Result<CellValue, CellError>)
        requires
            self.wf(),
        ensures
            crate::common::cell_value::outcome_view(value) == self@.sheet.value(cell),
    {
        self.storage.get_value(cell)
    }

    /// The formula of `cell` as text, if the cell has a formula.
    pub fn get_cell_formula<H: Fn(Request) -> Reply>(&self, cell: AbsCell, host: &H) -> (text:
        Option<String>)
        requires
            self.wf(),
            serves(host),
        ensures
            match self@.sheet.formula(cell) {
                Some(formula) => text matches Some(written)
                    && crate::common::expression::writes_formula(host, formula, cell, written@),
                None => text is None,
            },
    {
        self.storage.get_cell_formula(cell, host)
    }

    /// What every cell of the rectangle between `top_left` and
    /// `bottom_right` holds, in row-major order.
    pub fn get_cell_range(&self, top_left: AbsCell, bottom_right: AbsCell) -> (found: Vec<
        (AbsCell, CellData),
    >)
        requires
            self.wf(),
        ensures
            found@.len() == rectangle(top_left, bottom_right).len(),
            forall|k: int|
                0 <= k < found@.len() ==> recorded(#[trigger] found@[k]) == (
                    rectangle(top_left, bottom_right)[k],
                    self@.sheet.record(rectangle(top_left, bottom_right)[k]),
                ),
    {
        self.storage.get_value_range_full(top_left, bottom_right)
    }

    /// Gives `cell` the formula that `formula` writes. Where the text is
    /// refused, or the formula by the store, nothing is changed; else the edit
    /// can be taken back, and no edit is left to make again.
    pub fn set_cell_formula<H: Fn(Request) -> Reply>(
        &mut self,
        cell: AbsCell,
        formula: &str,
        host: &H,
    ) -> (outcome: Result<(), ExpressionError>)
        requires
            old(self).wf(),
            serves(host),
        ensures
            final(self).wf(),
            final(self).parser() == old(self).parser(),
            old(self)@.sheet.consistent(host) ==> final(self)@.sheet.consistent(host),
            match old(self).parser().formula(formula@, cell) {
                Err(e) => outcome == Err::<(), ExpressionError>(refusal(e)) && final(self)@ == old(
                    self,
                )@,
                Ok(tree) => formula_entered(host, old(self)@, cell, tree, outcome, final(self)@),
            },
    {
        let expression = match self.parser.parse(formula, cell, host) {
            Err(ParseError::InvalidCell) => {
                return Err(ExpressionError::InvalidCell);
            },
            Err(ParseError::InvalidFormula) => {
                return Err(ExpressionError::InvalidExpression);
            },
            Err(ParseError::InvalidRange) => {
                return Err(ExpressionError::InvalidRange);
            },
            Ok(expression) => expression,
        };
        let ghost e = expression;
        let before = self.storage.get_input(cell, host);
        match self.storage.set_expression(cell, expression, host) {
            StorageError::Success => {
                let after = self.storage.get_input(cell, host);
                let action = Action { cell, old_value: before, new_value: after };
                self.undo_stack.push(action);
                self.redo_stack.clear();
                proof {
                    assert(edits(self.undo_stack@).drop_last() =~= edits(old(self).undo_stack@));
                    assert(chosen(e));
                }
                Ok(())
            },
            StorageError::CircularDependency => {
                proof {
                    assert(chosen(e));
                }
                Err(ExpressionError::CircularReference)
            },
            StorageError::InvalidCell => {
                proof {
                    assert(chosen(e));
                }
                Err(ExpressionError::InvalidCell)
            },
        }
    }

    /// Gives `cell` what `input` holds, as an edit would, but without a
    /// record in the history.
    fn restore<H: Fn(Request) -> Reply>(&mut self, cell: AbsCell, input: &CellInput, host: &H)
        requires
            old(self).wf(),
            serves(host),
        ensures
            final(self).wf(),
            final(self).parser == old(self).parser,
            old(self).storage@.consistent(host) ==> final(self).storage@.consistent(host),
            final(self).undo_stack == old(self).undo_stack,
            final(self).redo_stack == old(self).redo_stack,
            restored(host, old(self).parser, old(self).storage@, cell, input@, final(self).storage@),
    {
        match input {
            CellInput::Value(value) => {
                self.storage.set_value(cell, value.clone(), host);
            },
            CellInput::Formula(text) => {
                match self.parser.parse(text.as_str(), cell, host) {
                    Err(_) => {},
                    Ok(expression) => {
                        let ghost e = expression;
                        let _ = self.storage.set_expression(cell, expression, host);
                        proof {
                            assert(chosen(e));
                        }
                    },
                }
            },
        }
    }

    /// Takes the last edit back: gives its cell again what it was given
    /// before the edit, and keeps the edit to be made again. Nothing happens,
    /// and the answer is `false`, where no edit is left to take back.
    pub fn undo<H: Fn(Request) -> Reply>(&mut self, host: &H) -> (done: bool)
        requires
            old(self).wf(),
            serves(host),
        ensures
            final(self).wf(),
            final(self).parser() == old(self).parser(),
            old(self)@.sheet.consistent(host) ==> final(self)@.sheet.consistent(host),
            done == (old(self)@.undo.len() > 0),
            !done ==> final(self)@ == old(self)@,
            done ==> undone(host, old(self).parser(), old(self)@, final(self)@),
    {
        match self.undo_stack.pop() {
            Some(action) => {
                self.restore(action.cell, &action.old_value, host);
                self.redo_stack.push(action);
                proof {
                    assert(edits(self.undo_stack@) =~= edits(old(self).undo_stack@).drop_last());
                    assert(edits(self.redo_stack@) =~= edits(old(self).redo_stack@).push(action@));
                }
                true
            },
            None => false,
        }
    }

    /// Makes again the edit that was taken back last: gives its cell again
    /// what the edit gave it, and keeps the edit to be taken back. Nothing
    /// happens, and the answer is `false`, where no edit is left to make
    /// again.
    pub fn redo<H: Fn(Request) -> Reply>(&mut self, host: &H) -> (done: bool)
        requires
            old(self).wf(),
            serves(host),
        ensures
            final(self).wf(),
            final(self).parser() == old(self).parser(),
            old(self)@.sheet.consistent(host) ==> final(self)@.sheet.consistent(host),
            done == (old(self)@.redo.len() > 0),
            !done ==> final(self)@ == old(self)@,
            done ==> redone(host, old(self).parser(), old(self)@, final(self)@),
    {
        match self.redo_stack.pop() {
            Some(action) => {
                self.restore(action.cell, &action.new_value, host);
                self.undo_stack.push(action);
                proof {
                    assert(edits(self.redo_stack@) =~= edits(old(self).redo_stack@).drop_last());
                    assert(edits(self.undo_stack@) =~= edits(old(self).undo_stack@).push(action@));
                }
                true
            },
            None => false,
        }
    }

    /// Gives `to` what `from` was given: its formula, every reference as far
    /// from `to` as it was from `from`, or its value. The history keeps no
    /// record of it.
    pub fn copy_cell_expression<H: Fn(Request) -> Reply>(
        &mut self,
        from: AbsCell,
        to: AbsCell,
        host: &H,
    ) -> (outcome: Result<(), ExpressionError>)
        requires
            old(self).wf(),
            serves(host),
        ensures
            final(self).wf(),
            final(self).parser() == old(self).parser(),
            old(self)@.sheet.consistent(host) ==> final(self)@.sheet.consistent(host),
            final(self)@.undo == old(self)@.undo,
            final(self)@.redo == old(self)@.redo,
            match old(self)@.sheet.formula(from) {
                Some(formula) => match old(self)@.sheet.verdict(to, formula) {
                    StorageError::Success => outcome is Ok && final(self)@.sheet.recomputed_from(
                        old(self)@.sheet.with_formula(to, formula),
                    ),
                    StorageError::CircularDependency => outcome == Err::<(), ExpressionError>(
                        ExpressionError::CircularReference,
                    ) && final(self)@ == old(self)@,
                    StorageError::InvalidCell => outcome == Err::<(), ExpressionError>(
                        ExpressionError::InvalidCell,
                    ) && final(self)@ == old(self)@,
                },
                None => {
                    &&& outcome is Ok
                    &&& old(self)@.sheet.value(from) matches Ok(value)
                        && final(self)@.sheet.recomputed_from(
                        old(self)@.sheet.with_value(to, value),
                    )
                },
            },
    {
        match self.storage.copy_cell_expression(from, to, host) {
            StorageError::CircularDependency => Err(ExpressionError::CircularReference),
            StorageError::InvalidCell => Err(ExpressionError::InvalidCell),
            StorageError::Success => Ok(()),
        }
    }

    /// The first cell after `cell`, in row-major order, that holds text or a
    /// number in whose notation `to_search` stands.
    pub fn search<H: Fn(Request) -> Reply>(&self, cell: AbsCell, to_search: &str, host: &H) -> (found:
        Option<AbsCell>)
        requires
            self.wf(),
            serves(host),
        ensures
            self@.sheet.searched(host, cell, to_search@, found),
    {
        self.storage.search(cell, to_search, host)
    }

    /// The first cell of the grid, in row-major order, that holds text or a
    /// number in whose notation `to_search` stands.
    pub fn search_from_start<H: Fn(Request) -> Reply>(&self, to_search: &str, host: &H) -> (found:
        Option<AbsCell>)
        requires
            self.wf(),
            serves(host),
        ensures
            self@.sheet.searched(host, AbsCell { row: 0i16, col: -1i16 }, to_search@, found),
    {
        self.storage.search_from_start(to_search, host)
    }

    /// The rows of a table of separated values for the rectangle between
    /// `top_left` and `bottom_right`: for each row of the rectangle, the
    /// values of its cells as they are written in such a table.
    pub fn export_rows<H: Fn(Request) -> Reply>(
        &self,
        top_left: AbsCell,
        bottom_right: AbsCell,
        host: &H,
    ) -> (rows: Vec<Vec<String>>)
        requires
            self.wf(),
            serves(host),
        ensures
            rows@.len() == if top_left.row <= bottom_right.row {
                bottom_right.row - top_left.row + 1
            } else {
                0
            },
            forall|r: int|
                0 <= r < rows@.len() ==> (#[trigger] rows@[r])@.len() == if top_left.col
                    <= bottom_right.col {
                    bottom_right.col - top_left.col + 1
                } else {
                    0
                },
            forall|r: int, c: int|
                0 <= r < rows@.len() && 0 <= c < rows@[r]@.len() ==> exported(
                    host,
                    self@.sheet.value(
                        AbsCell { row: (top_left.row + r) as i16, col: (top_left.col + c) as i16 },
                    ),
                    (#[trigger] rows@[r]@[c])@,
                ),
    {
        let mut rows: Vec<Vec<String>> = Vec::new();
        let mut row: i32 = top_left.row as i32;
        while row <= bottom_right.row as i32
            invariant
                self.wf(),
                serves(host),
                top_left.row <= row,
                row <= bottom_right.row + 1 || row == top_left.row,
                rows@.len() == row - top_left.row,
                forall|r: int|
                    0 <= r < rows@.len() ==> (#[trigger] rows@[r])@.len() == if top_left.col
                        <= bottom_right.col {
                        bottom_right.col - top_left.col + 1
                    } else {
                        0
                    },
                forall|r: int, c: int|
                    0 <= r < rows@.len() && 0 <= c < rows@[r]@.len() ==> exported(
                        host,
                        self@.sheet.value(
                            AbsCell {
                                row: (top_left.row + r) as i16,
                                col: (top_left.col + c) as i16,
                            },
                        ),
                        (#[trigger] rows@[r]@[c])@,
                    ),
            decreases bottom_right.row + 1 - row,
        {
            let mut record: Vec<String> = Vec::new();
            let mut col: i32 = top_left.col as i32;
            while col <= bottom_right.col as i32
                invariant
                    self.wf(),
                    serves(host),
                    top_left.row <= row <= bottom_right.row,
                    top_left.col <= col,
                    col <= bottom_right.col + 1 || col == top_left.col,
                    record@.len() == col - top_left.col,
                    forall|c: int|
                        0 <= c < record@.len() ==> exported(
                            host,
                            self@.sheet.value(
                                AbsCell { row: row as i16, col: (top_left.col + c) as i16 },
                            ),
                            (#[trigger] record@[c])@,
                        ),
                decreases bottom_right.col + 1 - col,
            {
                let cell = AbsCell { row: row as i16, col: col as i16 };
                let text = match self.storage.get_value(cell) {
                    Ok(CellValue::Empty) => String::new(),
                    Ok(CellValue::Number(n)) => {
                        let notation = crate::common::number::ask_notation(host, n);
                        crate::common::text::from_chars(&notation)
                    },
                    Ok(CellValue::String(text)) => text,
                    Err(_) => {
                        let error = vec!['#', 'E', 'R', 'R', 'O', 'R'];
                        assert(error@ =~= seq!['#', 'E', 'R', 'R', 'O', 'R']);
                        crate::common::text::from_chars(&error)
                    },
                };
                record.push(text);
                col = col + 1;
            }
            rows.push(record);
            row = row + 1;
        }
        rows
    }

    /// Every cell that holds something, with what it holds, in row-major
    /// order.
    pub fn entries(&self) -> (found: Vec<(AbsCell, CellData)>)
        requires
            self.wf(),
        ensures
            forall|k: int|
                0 <= k < found@.len() ==> self@.sheet.cells.contains_key((#[trigger] found@[k]).0)
                    && found@[k].1@ == self@.sheet.cells[found@[k].0],
            forall|i: int, j: int|
                0 <= i < j < found@.len() ==> (#[trigger] found@[i]).0.precedes(
                    (#[trigger] found@[j]).0,
                ),
            forall|cell: AbsCell| #[trigger]
                self@.sheet.cells.contains_key(cell) ==> exists|k: int|
                    0 <= k < found@.len() && (#[trigger] found@[k]).0 == cell,
    {
        self.storage.entries()
    }

    /// The number of rows of the grid.
    pub fn rows(&self) -> (rows: u16)
        requires
            self.wf(),
        ensures
            rows == self@.sheet.rows,
    {
        self.storage.rows()
    }

    /// The number of columns of the grid.
    pub fn cols(&self) -> (cols: u16)
        requires
            self.wf(),
        ensures
            cols == self@.sheet.cols,
    {
        self.storage.cols()
    }
}

} // verus!
