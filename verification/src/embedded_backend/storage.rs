//! The store: what every cell holds, and the graph of what reads what. All
//! changes go through the store, which keeps the two in step.
use vstd::prelude::*;
use crate::common::cell_map::CellMap;
use crate::common::cell_value::{
    clone_outcome, outcome_view, CellData, CellError, CellValue, Content, Record,
};
use crate::common::expression::{writes_formula, Expression};
use crate::common::number::{
    ask_notation, chosen, serves, single_valued, writes_number, Number, Reply, Request,
};
use crate::common::structs::AbsCell;
use crate::common::text::{contains_text, occurs, to_chars};
use crate::embedded_backend::calc_engine::{
    alike_for, evaluate, evaluates, evaluates_alike, evaluates_once,
};
use crate::embedded_backend::graph::{
    acyclic, awaited, closed_backward, closed_set_is_empty, connected, earlier,
    edges_to_one_cell_acyclic, fewer_edges_acyclic, listed, DependencyGraph, Edge,
};
use crate::embedded_backend::structs::{CellInput, Input};

verus! {

/// The number of rows of a grid whose size is not given.
pub const ROWS: u16 = 999;

/// The number of columns of a grid whose size is not given.
pub const COLS: u16 = 18278;

/// How an edit of a formula ended.
#[derive(Copy, Clone, Debug, PartialEq, Eq, Structural)]
pub enum StorageError {
    /// The formula would make a cell depend on itself; nothing was changed.
    CircularDependency,
    /// The formula reads outside the grid; nothing was changed.
    InvalidCell,
    /// The edit was made.
    Success,
}

/// The store as a mathematical value: the size of the grid and what the
/// cells hold. A cell without an entry holds nothing.
pub struct Sheet {
    pub rows: u16,
    pub cols: u16,
    pub cells: Map<AbsCell, Record>,
}

/// The cells of the rectangle between two corners in row-major order; none
/// if the first corner does not lie above and left of the second, or on it.
pub open spec fn rectangle(top_left: AbsCell, bottom_right: AbsCell) -> Seq<AbsCell> {
    if top_left.row <= bottom_right.row && top_left.col <= bottom_right.col {
        let width = bottom_right.col - top_left.col + 1;
        let height = bottom_right.row - top_left.row + 1;
        Seq::new(
            (height * width) as nat,
            |k: int| AbsCell { row: (top_left.row + k / width) as i16, col: (top_left.col + k % width) as i16 },
        )
    } else {
        Seq::empty()
    }
}

impl Sheet {
    /// What `cell` holds.
    pub open spec fn record(self, cell: AbsCell) -> Record {
        if self.cells.contains_key(cell) {
            self.cells[cell]
        } else {
            Record::blank()
        }
    }

    /// The value of `cell`.
    pub open spec fn value(self, cell: AbsCell) -> Result<Content, CellError> {
        self.record(cell).value
    }

    /// The formula of `cell`.
    pub open spec fn formula(self, cell: AbsCell) -> Option<Expression> {
        self.record(cell).formula
    }

    /// Whether the formula of `cell` reads `on`.
    pub open spec fn depends(self, on: AbsCell, cell: AbsCell) -> bool {
        self.formula(cell) matches Some(f) && f.reads(cell, on)
    }

    /// The edges that the formulas call for: from each cell that is read to
    /// the cell whose formula reads it.
    pub open spec fn edges(self) -> Set<Edge> {
        Set::new(|e: Edge| self.depends(e.0, e.1))
    }

    /// Whether the entries are in order: there are finitely many, and each
    /// differs from what an unwritten cell holds, holds an error only beside a
    /// formula, and has a formula that reads nothing outside the grid.
    pub open spec fn tidy(self) -> bool {
        &&& self.cells.dom().finite()
        &&& forall|cell: AbsCell| #[trigger]
            self.cells.contains_key(cell) ==> {
                &&& self.cells[cell] != Record::blank()
                &&& (self.cells[cell].formula is None ==> self.cells[cell].value is Ok)
                &&& (self.cells[cell].formula matches Some(f) ==> f.legal_at(
                    cell,
                    self.rows,
                    self.cols,
                ))
            }
    }

    /// Whether the sheet is sound: every entry in order, and no cell that
    /// depends on itself.
    pub open spec fn wf(self) -> bool {
        self.tidy() && acyclic(self.edges())
    }

    /// The sheet with `e` as the formula of `cell`; the value of the cell
    /// stays until the formula is evaluated.
    pub open spec fn with_formula(self, cell: AbsCell, e: Expression) -> Sheet {
        Sheet {
            cells: self.cells.insert(cell, Record { value: self.value(cell), formula: Some(e) }),
            ..self
        }
    }

    /// The sheet with `value` as the value of `cell` and no formula there; a
    /// cell that is given the empty value holds nothing.
    pub open spec fn with_value(self, cell: AbsCell, value: Content) -> Sheet {
        Sheet {
            cells: if value is Empty {
                self.cells.remove(cell)
            } else {
                self.cells.insert(cell, Record { value: Ok(value), formula: None })
            },
            ..self
        }
    }

    /// Whether `input` is what `cell` was given: a way to write its formula
    /// down, with the numbers as `host` writes them, or its value where it has
    /// no formula.
    pub open spec fn given<H: Fn(Request) -> Reply>(self, host: &H, cell: AbsCell, input: Input) -> bool {
        match self.formula(cell) {
            Some(formula) => input matches Input::Formula(text) && writes_formula(
                host,
                formula,
                cell,
                text,
            ),
            None => match self.value(cell) {
                Ok(value) => input == Input::Value(value),
                Err(_) => input == Input::Value(Content::Empty),
            },
        }
    }

    /// Whether the value of `cell` is what its formula may give in this
    /// sheet, with the arithmetic of `host`; a cell without a formula is
    /// settled as it is.
    pub open spec fn settled_at<H: Fn(Request) -> Reply>(self, host: &H, cell: AbsCell) -> bool {
        match self.formula(cell) {
            Some(f) => yields(host, self, cell, f),
            None => true,
        }
    }

    /// Whether every cell is settled: the value of each cell with a formula
    /// is what the formula may give.
    pub open spec fn consistent<H: Fn(Request) -> Reply>(self, host: &H) -> bool {
        forall|cell: AbsCell| #[trigger] self.settled_at(host, cell)
    }

    /// Whether every cell is settled but, at most, `changed` and the cells
    /// that read it.
    pub open spec fn consistent_but<H: Fn(Request) -> Reply>(self, host: &H, changed: AbsCell) -> bool {
        forall|cell: AbsCell|
            cell != changed && !self.depends(changed, cell) ==> #[trigger] self.settled_at(
                host,
                cell,
            )
    }

    /// Whether `found` is what a search for `needle` after `start` may give:
    /// a cell after `start` at which the search may stop, every cell between
    /// being one that it may pass; or nothing, every cell after `start` being
    /// one that it may pass.
    pub open spec fn searched<H: Fn(Request) -> Reply>(
        self,
        host: &H,
        start: AbsCell,
        needle: Seq<char>,
        found: Option<AbsCell>,
    ) -> bool {
        match found {
            Some(cell) => {
                &&& self.cells.contains_key(cell)
                &&& start.precedes(cell)
                &&& hit(host, self.cells[cell], needle)
                &&& forall|other: AbsCell|
                    #[trigger] self.cells.contains_key(other) && start.precedes(other)
                        && other.precedes(cell) ==> miss(host, self.cells[other], needle)
            },
            None => forall|other: AbsCell|
                #[trigger] self.cells.contains_key(other) && start.precedes(other) ==> miss(
                    host,
                    self.cells[other],
                    needle,
                ),
        }
    }

    /// How giving `cell` the formula `e` ends: refused if the formula reads
    /// outside the grid; refused if, with the formula in place, a path leads
    /// from the cell back to it; made otherwise.
    pub open spec fn verdict(self, cell: AbsCell, e: Expression) -> StorageError {
        if !e.legal_at(cell, self.rows, self.cols) {
            StorageError::InvalidCell
        } else if connected(self.with_formula(cell, e).edges(), cell, cell) {
            StorageError::CircularDependency
        } else {
            StorageError::Success
        }
    }

    /// Whether this sheet is `before` but for the values of cells that have
    /// a formula.
    pub open spec fn recomputed_from(self, before: Sheet) -> bool {
        &&& self.rows == before.rows
        &&& self.cols == before.cols
        &&& self.cells.dom() == before.cells.dom()
        &&& forall|cell: AbsCell| #[trigger]
            before.cells.contains_key(cell) ==> self.cells[cell].formula
                == before.cells[cell].formula && (before.cells[cell].formula is None
                ==> self.cells[cell] == before.cells[cell])
    }

    /// After a cell was given a value, it holds that value and no formula,
    /// and every other cell without a formula holds what it held.
    pub proof fn given_value_stays(self, before: Sheet, cell: AbsCell, value: Content)
        requires
            self.recomputed_from(before.with_value(cell, value)),
        ensures
            self.value(cell) == Ok::<Content, CellError>(value),
            self.formula(cell) is None,
            forall|other: AbsCell|
                other != cell ==> self.formula(other) == before.formula(other) && (before.formula(
                    other,
                ) is None ==> #[trigger] self.record(other) == before.record(other)),
    {
        let given = before.with_value(cell, value);
        assert(self.cells.dom() =~= given.cells.dom());
        if given.cells.contains_key(cell) {
            assert(self.cells[cell] == given.cells[cell]);
        }
        assert forall|other: AbsCell| other != cell implies self.formula(other) == before.formula(
            other,
        ) && (before.formula(other) is None ==> #[trigger] self.record(other) == before.record(
            other,
        )) by {
            assert(given.cells.contains_key(other) == before.cells.contains_key(other));
            assert(self.cells.contains_key(other) == given.cells.contains_key(other));
            if before.cells.contains_key(other) {
                assert(given.cells[other] == before.cells[other]);
                assert(self.cells[other].formula == given.cells[other].formula);
            }
        }
    }

    /// After a cell was given a formula, it holds that formula; every other
    /// cell holds the formula that it held, and what it held if it has no
    /// formula.
    pub proof fn given_formula_stays(self, before: Sheet, cell: AbsCell, e: Expression)
        requires
            self.recomputed_from(before.with_formula(cell, e)),
        ensures
            self.formula(cell) == Some(e),
            forall|other: AbsCell|
                other != cell ==> self.formula(other) == before.formula(other) && (before.formula(
                    other,
                ) is None ==> #[trigger] self.record(other) == before.record(other)),
    {
        let given = before.with_formula(cell, e);
        assert(self.cells.dom() =~= given.cells.dom());
        assert(given.cells.contains_key(cell));
        assert(self.cells[cell].formula == given.cells[cell].formula);
        assert forall|other: AbsCell| other != cell implies self.formula(other) == before.formula(
            other,
        ) && (before.formula(other) is None ==> #[trigger] self.record(other) == before.record(
            other,
        )) by {
            assert(given.cells.contains_key(other) == before.cells.contains_key(other));
            assert(self.cells.contains_key(other) == given.cells.contains_key(other));
            if before.cells.contains_key(other) {
                assert(given.cells[other] == before.cells[other]);
                assert(self.cells[other].formula == given.cells[other].formula);
            }
        }
    }

    /// In a settled sheet the value of a cell with a formula is what the
    /// formula may give for the cell, read from the sheet as it stands.
    pub proof fn value_follows_formula<H: Fn(Request) -> Reply>(
        self,
        host: &H,
        cell: AbsCell,
        f: Expression,
    )
        requires
            self.consistent(host),
            self.formula(cell) == Some(f),
        ensures
            exists|out: Result<Number, CellError>| #[trigger]
                chosen(out) && evaluates(host, self, cell, f, out) && self.value(cell) == stored(
                    out,
                ),
    {
        assert(self.settled_at(host, cell));
    }

    /// Recomputing changes neither the edges nor the soundness of a sheet.
    pub proof fn recomputed_keeps_sound(self, before: Sheet)
        requires
            self.recomputed_from(before),
            before.wf(),
        ensures
            self.wf(),
            self.edges() == before.edges(),
    {
        assert forall|e: Edge| self.edges().contains(e) <==> before.edges().contains(e) by {
            if self.cells.contains_key(e.1) {
                assert(before.cells.contains_key(e.1));
            }
        }
        assert(self.edges() =~= before.edges());
        assert forall|cell: AbsCell| #[trigger] self.cells.contains_key(cell) implies {
            &&& self.cells[cell] != Record::blank()
            &&& (self.cells[cell].formula is None ==> self.cells[cell].value is Ok)
            &&& (self.cells[cell].formula matches Some(f) ==> f.legal_at(
                cell,
                self.rows,
                self.cols,
            ))
        } by {
            assert(before.cells.contains_key(cell));
        }
    }

    /// The entries of the cells of `cells`, in their order; cells without an
    /// entry are passed over.
    pub open spec fn held(self, cells: Seq<AbsCell>) -> Seq<(AbsCell, Record)>
        decreases cells.len(),
    {
        if cells.len() == 0 {
            Seq::empty()
        } else if self.cells.contains_key(cells.last()) {
            self.held(cells.drop_last()).push((cells.last(), self.cells[cells.last()]))
        } else {
            self.held(cells.drop_last())
        }
    }

    /// The values of the cells of `cells`, in their order.
    pub open spec fn values_of(self, cells: Seq<AbsCell>) -> Seq<Result<Content, CellError>> {
        Seq::new(cells.len(), |k: int| self.value(cells[k]))
    }
}

/// The store: the size of the grid, what the cells hold, and the dependency
/// graph.
pub struct Storage {
    rows: u16,
    cols: u16,
    values: CellMap<CellData>,
    graph: DependencyGraph,
}

/// A cell with its value, as the sparse walk of a rectangle hands it out.
pub open spec fn valued(pair: (AbsCell, Result<CellValue, CellError>)) -> (AbsCell, Result<Content, CellError>) {
    (pair.0, outcome_view(pair.1))
}

/// A cell with what it holds, as the full walk of a rectangle hands it out.
pub open spec fn recorded(pair: (AbsCell, CellData)) -> (AbsCell, Record) {
    (pair.0, pair.1@)
}

impl View for Storage {
    type V = Sheet;

    closed spec fn view(&self) -> Sheet {
        Sheet {
            rows: self.rows,
            cols: self.cols,
            cells: Map::new(
                |cell: AbsCell| self.values@.contains_key(cell),
                |cell: AbsCell| self.values@[cell]@,
            ),
        }
    }
}

impl Default for Storage {
    /// An empty store for a grid of `ROWS` rows and `COLS` columns.
    fn default() -> (store: Self)
        ensures
            store.wf(),
            store@.rows == ROWS,
            store@.cols == COLS,
            store@.cells == Map::<AbsCell, Record>::empty(),
    {
        Storage::new(ROWS, COLS)
    }
}

impl Storage {
    /// The edges that the graph of the store holds.
    pub closed spec fn edges(&self) -> Set<Edge> {
        self.graph.edges()
    }

    /// Whether the parts of the store are in order: the entries of its
    /// sheet and the lists of its graph. The graph of such a store may hold
    /// the edges of a formula that is being tried, and with them a cell that
    /// depends on itself.
    pub closed spec fn linked(&self) -> bool {
        &&& self.values.wf()
        &&& self.graph.wf()
        &&& self@.tidy()
    }

    /// Whether the store is sound: its parts are in order, its graph holds
    /// the edges that the formulas call for, and no others, and no cell
    /// depends on itself.
    pub open spec fn wf(&self) -> bool {
        &&& self.linked()
        &&& self@.wf()
        &&& self.edges() == self@.edges()
    }

    /// A sheet in which no cell has a formula is settled, whatever the
    /// arithmetic.
    pub proof fn plain_sheet_is_consistent<H: Fn(Request) -> Reply>(sheet: Sheet, host: &H)
        requires
            forall|cell: AbsCell| sheet.formula(cell) is None,
        ensures
            sheet.consistent(host),
    {
        assert forall|cell: AbsCell| #[trigger] sheet.settled_at(host, cell) by {
            assert(sheet.formula(cell) is None);
        }
    }

    /// The graph of a sound store holds an edge exactly where a formula
    /// reads a cell, and no cell of it depends on itself.
    pub proof fn graph_follows_formulas(&self)
        requires
            self.wf(),
        ensures
            self@.wf(),
            self.edges() == self@.edges(),
            forall|on: AbsCell, cell: AbsCell|
                self.edges().contains((on, cell)) <==> self@.depends(on, cell),
            acyclic(self.edges()),
    {
    }

    /// An empty store for a grid of `rows` rows and `cols` columns.
    pub fn new(rows: u16, cols: u16) -> (store: Self)
        ensures
            store.wf(),
            store@.rows == rows,
            store@.cols == cols,
            store@.cells == Map::<AbsCell, Record>::empty(),
    {
        let store = Storage { rows, cols, values: CellMap::new(), graph: DependencyGraph::new() };
        proof {
            assert(store@.cells =~= Map::<AbsCell, Record>::empty());
            assert(store@.edges() =~= Set::<Edge>::empty());
            assert forall|cell: AbsCell| !#[trigger] crate::embedded_backend::graph::connected(
                store@.edges(),
                cell,
                cell,
            ) by {
                if crate::embedded_backend::graph::connected(store@.edges(), cell, cell) {
                    let path = choose|path: Seq<AbsCell>| #[trigger]
                        crate::embedded_backend::graph::leads(store@.edges(), path, cell, cell);
                    assert(crate::embedded_backend::graph::hop(store@.edges(), path, 0));
                }
            }
        }
        store
    }

    /// The number of rows of the grid.
    pub fn rows(&self) -> (rows: u16)
        ensures
            rows == self@.rows,
    {
        self.rows
    }

    /// The number of columns of the grid.
    pub fn cols(&self) -> (cols: u16)
        ensures
            cols == self@.cols,
    {
        self.cols
    }

    /// The value of `cell`: what it holds, or the empty value where it holds
    /// nothing.
    pub fn get_value(&self, cell: AbsCell) -> (value: Result<CellValue, CellError>)
        requires
            self.wf(),
        ensures
            outcome_view(value) == self@.value(cell),
    {
        match self.values.get(cell) {
            Some(data) => clone_outcome(&data.value),
            None => Ok(CellValue::Empty),
        }
    }

    /// The cells of the rectangle between `top_left` and `bottom_right` that
    /// hold something, each with its value, in row-major order. A rectangle
    /// whose corners are out of order holds no cell.
    pub fn get_value_range_sparse(&self, top_left: AbsCell, bottom_right: AbsCell) -> (found: Vec<
        (AbsCell, Result<CellValue, CellError>),
    >)
        requires
            self.wf(),
        ensures
            found@.len() == self@.held(rectangle(top_left, bottom_right)).len(),
            forall|k: int|
                0 <= k < found@.len() ==> {
                    let entry = #[trigger] self@.held(rectangle(top_left, bottom_right))[k];
                    valued(found@[k]) == (entry.0, entry.1.value)
                },
    {
        let mut found: Vec<(AbsCell, Result<CellValue, CellError>)> = Vec::new();
        if !(top_left.row <= bottom_right.row && top_left.col <= bottom_right.col) {
            return found;
        }
        let ghost cells = rectangle(top_left, bottom_right);
        let ghost width = bottom_right.col - top_left.col + 1;
        let n = self.values.len();
        let mut row: i32 = top_left.row as i32;
        let mut done: Ghost<int> = Ghost(0);
        proof {
            rectangle_size(top_left, bottom_right);
            assert(cells.take(0) =~= Seq::<AbsCell>::empty());
        }
        while row <= bottom_right.row as i32
            invariant
                self.wf(),
                n == self.values.cells().len(),
                top_left.row <= row <= bottom_right.row + 1,
                top_left.col <= bottom_right.col,
                cells == rectangle(top_left, bottom_right),
                width == bottom_right.col - top_left.col + 1,
                cells.len() == (bottom_right.row - top_left.row + 1) * width,
                done@ == (row - top_left.row) * width,
                0 <= done@ <= cells.len(),
                found@.len() == self@.held(cells.take(done@)).len(),
                forall|k: int|
                    0 <= k < found@.len() ==> {
                        let entry = #[trigger] self@.held(cells.take(done@))[k];
                        valued(found@[k]) == (entry.0, entry.1.value)
                    },
            decreases bottom_right.row + 1 - row,
        {
            let first = AbsCell { row: row as i16, col: top_left.col };
            let mut i: usize = self.values.seek(first);
            let ghost mut col: int = top_left.col as int;
            proof {
                self.values.cells_ascend();
                assert((row - top_left.row) * width + width == (row + 1 - top_left.row) * width)
                    by (nonlinear_arith);
                assert((row + 1 - top_left.row) * width <= (bottom_right.row - top_left.row + 1)
                    * width) by (nonlinear_arith)
                    requires
                        row <= bottom_right.row,
                        width > 0,
                ;
            }
            while i < n && self.values.cell_at(i).row as i32 == row && self.values.cell_at(i).col
                <= bottom_right.col
                invariant
                    self.wf(),
                    n == self.values.cells().len(),
                    i <= n,
                    top_left.row <= row <= bottom_right.row,
                    top_left.col <= col <= bottom_right.col + 1,
                    cells == rectangle(top_left, bottom_right),
                    width == bottom_right.col - top_left.col + 1,
                    cells.len() == (bottom_right.row - top_left.row + 1) * width,
                    done@ == (row - top_left.row) * width,
                    0 <= done@,
                    done@ + width <= cells.len(),
                    crate::common::cell_map::ascending(self.values.cells()),
                    forall|j: int|
                        0 <= j < i ==> reaches_before(#[trigger] self.values.cells()[j], row as int, col),
                    forall|j: int|
                        i <= j < n ==> !reaches_before(
                            #[trigger] self.values.cells()[j],
                            row as int,
                            col,
                        ),
                    found@.len() == self@.held(cells.take(done@ + (col - top_left.col))).len(),
                    forall|k: int|
                        0 <= k < found@.len() ==> {
                            let entry = #[trigger] self@.held(
                                cells.take(done@ + (col - top_left.col)),
                            )[k];
                            valued(found@[k]) == (entry.0, entry.1.value)
                        },
                decreases n - i,
            {
                let cell = self.values.cell_at(i);
                let ghost here = done@ + (cell.col - top_left.col);
                proof {
                    assert(!reaches_before(self.values.cells()[i as int], row as int, col));
                    assert(cell.col >= col);
                    self.values.entry_in_view(i as int);
                    assert forall|k: int| done@ + (col - top_left.col) <= k < here implies !self@.cells.contains_key(
                        #[trigger] cells[k],
                    ) by {
                        rectangle_at(top_left, bottom_right, row as int, top_left.col + (k - done@));
                        let between = AbsCell {
                            row: row as i16,
                            col: (top_left.col + (k - done@)) as i16,
                        };
                        assert(cells[k] == between);
                        if i > 0 {
                            assert(reaches_before(self.values.cells()[i - 1], row as int, col));
                        }
                        self.values.nothing_between(i as int, between);
                    }
                    held_skips(self@, cells, done@ + (col - top_left.col), here);
                    rectangle_at(top_left, bottom_right, row as int, cell.col as int);
                    assert(cells.take(here + 1).drop_last() =~= cells.take(here));
                    assert(cells.take(here + 1).last() == cell);
                    assert(self@.cells.contains_key(cell));
                }
                found.push((cell, clone_outcome(&self.values.item_at(i).value)));
                proof {
                    col = cell.col + 1;
                    assert forall|j: int| 0 <= j < i + 1 implies reaches_before(
                        #[trigger] self.values.cells()[j],
                        row as int,
                        col,
                    ) by {
                        if j < i {
                            assert(self.values.cells()[j].precedes(self.values.cells()[i as int]));
                        }
                    }
                    assert forall|j: int| i + 1 <= j < n implies !reaches_before(
                        #[trigger] self.values.cells()[j],
                        row as int,
                        col,
                    ) by {
                        assert(self.values.cells()[i as int].precedes(self.values.cells()[j]));
                    }
                }
                i += 1;
            }
            proof {
                let end = done@ + width;
                assert forall|k: int| done@ + (col - top_left.col) <= k < end implies !self@.cells.contains_key(
                    #[trigger] cells[k],
                ) by {
                    rectangle_at(top_left, bottom_right, row as int, top_left.col + (k - done@));
                    let between = AbsCell {
                        row: row as i16,
                        col: (top_left.col + (k - done@)) as i16,
                    };
                    assert(cells[k] == between);
                    if i > 0 {
                        assert(reaches_before(self.values.cells()[i - 1], row as int, col));
                    }
                    if i < n {
                        assert(!reaches_before(self.values.cells()[i as int], row as int, col));
                    }
                    self.values.nothing_between(i as int, between);
                }
                held_skips(self@, cells, done@ + (col - top_left.col), end);
                done@ = end;
            }
            row = row + 1;
        }
        proof {
            assert(cells.take(done@) =~= cells);
        }
        found
    }

    /// Evaluates the formula of `cell`, if it has one, and writes what it
    /// gave as the value of the cell.
    fn recalculate_cell<H: Fn(Request) -> Reply>(&mut self, cell: AbsCell, host: &H)
        requires
            old(self).wf(),
            serves(host),
        ensures
            final(self).wf(),
            final(self).graph == old(self).graph,
            final(self)@.recomputed_from(old(self)@),
            forall|other: AbsCell| other != cell ==> final(self)@.record(other) == old(self)@.record(other),
            final(self)@.settled_at(host, cell),
            forall|other: AbsCell|
                other != cell && !old(self)@.depends(cell, other) && old(self)@.settled_at(
                    host,
                    other,
                ) ==> #[trigger] final(self)@.settled_at(host, other),
    {
        let i = self.values.seek(cell);
        if i < self.values.len() && self.values.cell_at(i) == cell {
            proof {
                self.values.entry_in_view(i as int);
                assert(self@.cells.contains_key(cell));
            }
            let ghost formula_before = self@.formula(cell);
            let result = match &self.values.item_at(i).formula {
                Some(formula) => evaluate(self, cell, formula, host),
                None => {
                    return ;
                },
            };
            let ghost out = result;
            let value = match result {
                Ok(n) => Ok(CellValue::Number(n)),
                Err(e) => Err(e),
            };
            let mut data = self.values.exchange(i, CellData::default_instance());
            data.value = value;
            let _ = self.values.exchange(i, data);
            proof {
                assert(self@.cells.dom() =~= old(self)@.cells.dom());
                self@.recomputed_keeps_sound(old(self)@);
                let f = formula_before->Some_0;
                assert(!old(self)@.depends(cell, cell)) by {
                    if old(self)@.depends(cell, cell) {
                        assert(old(self)@.edges().contains((cell, cell)));
                        crate::embedded_backend::graph::edge_connects(
                            old(self)@.edges(),
                            cell,
                            cell,
                        );
                    }
                }
                assert(alike_for(old(self)@, self@, cell, f)) by {
                    assert forall|c: AbsCell| #[trigger] f.reads(cell, c) implies old(self)@.value(
                        c,
                    ) == self@.value(c) by {
                        assert(c != cell);
                    }
                }
                evaluates_alike(host, old(self)@, self@, cell, f, out, self.rows, self.cols);
                assert(chosen(out));
                assert(yields(host, self@, cell, f));
                assert forall|other: AbsCell|
                    other != cell && !old(self)@.depends(cell, other) && old(self)@.settled_at(
                        host,
                        other,
                    ) implies #[trigger] self@.settled_at(host, other) by {
                    settled_stays(host, old(self)@, self@, cell, other);
                }
            }
        }
    }

    /// Carries a change of `cell` forward: evaluates again the formula of
    /// `cell` and of every cell that depends on it, each after the cells of
    /// the change that it reads.
    ///
    /// The graph counts, for every cell that the change reaches, the edges
    /// that lead to it from cells of the change, and lists a cell once that
    /// count has come down to zero, taking one off the count of each of its
    /// dependents. The cells are evaluated in the order of that list.
    fn update_cells<H: Fn(Request) -> Reply>(&mut self, cell: AbsCell, host: &H)
        requires
            old(self).wf(),
            serves(host),
        ensures
            final(self).wf(),
            final(self).graph == old(self).graph,
            final(self)@.recomputed_from(old(self)@),
            old(self)@.consistent_but(host, cell) ==> final(self)@.consistent(host),
    {
        proof {
            self.graph.lists_are_edges();
        }
        let ghost sound = old(self)@.consistent_but(host, cell);
        let start = match self.graph.place(cell) {
            Some(start) => start,
            None => {
                self.recalculate_cell(cell, host);
                proof {
                    assert forall|c: AbsCell| sound implies #[trigger] self@.settled_at(host, c) by {
                        if c != cell {
                            assert(!old(self)@.depends(cell, c)) by {
                                if old(self)@.depends(cell, c) {
                                    assert(old(self)@.edges().contains((cell, c)));
                                }
                            }
                            assert(old(self)@.settled_at(host, c));
                        }
                    }
                }
                return ;
            },
        };
        let (order, members, counts) = self.graph.order_from(start);
        let ghost cells = self.graph.cells();
        let ghost lists = self.graph.lists();
        let mut i: usize = 0;
        proof {
            assert forall|c: AbsCell|
                sound && !awaited(cells, members@, earlier(order@, 0), c) implies #[trigger] self@.settled_at(
                host,
                c,
            ) by {
                assert(c != cell) by {
                    if c == cell {
                        assert(cells[start as int] == c && members@.contains(start as int));
                    }
                }
                assert(!self@.depends(cell, c)) by {
                    if self@.depends(cell, c) {
                        assert(self@.edges().contains((cell, c)));
                        assert(self.graph.edges().contains((cells[start as int], c)));
                        assert(lists[start as int].contains(c));
                        let k = choose|k: int| 0 <= k < cells.len() && #[trigger] cells[k] == c;
                        assert(members@.contains(start as int) && lists[start as int].contains(
                            cells[k],
                        ));
                        assert(members@.contains(k));
                    }
                }
            }
        }
        while i < order.len()
            invariant
                self.wf(),
                serves(host),
                self.graph == old(self).graph,
                self@.recomputed_from(old(self)@),
                cells == self.graph.cells(),
                lists == self.graph.lists(),
                i <= order@.len(),
                self.graph.sorted_from(start as int, members@, order@),
                self.graph.spread_from(start as int, members@, counts@),
                forall|c: AbsCell|
                    sound && !awaited(cells, members@, earlier(order@, i as int), c)
                        ==> #[trigger] self@.settled_at(host, c),
            decreases order@.len() - i,
        {
            proof {
                self.graph.lists_are_edges();
            }
            assert(members@.contains(order@[i as int] as int));
            let top = order[i];
            let t = self.graph.cell_at(top);
            let ghost before = self@;
            self.recalculate_cell(t, host);
            proof {
                assert(self@.recomputed_from(old(self)@)) by {
                    assert(self@.cells.dom() =~= old(self)@.cells.dom());
                    assert forall|c: AbsCell| #[trigger]
                        old(self)@.cells.contains_key(c) implies self@.cells[c].formula == old(
                        self,
                    )@.cells[c].formula && (old(self)@.cells[c].formula is None ==> self@.cells[c]
                        == old(self)@.cells[c]) by {
                        assert(before.cells.contains_key(c));
                    }
                }
                assert forall|c: AbsCell|
                    sound && !awaited(cells, members@, earlier(order@, i + 1), c)
                        implies #[trigger] self@.settled_at(host, c) by {
                    if c != t {
                        assert(!awaited(cells, members@, earlier(order@, i as int), c)) by {
                            if awaited(cells, members@, earlier(order@, i as int), c) {
                                let k = choose|k: int|
                                    0 <= k < cells.len() && #[trigger] cells[k] == c
                                        && members@.contains(k) && !earlier(
                                        order@,
                                        i as int,
                                    ).contains(k);
                                assert(k != top);
                                assert(!listed(order@, k, i + 1)) by {
                                    if listed(order@, k, i + 1) {
                                        let j = choose|j: int|
                                            0 <= j < i + 1 && j < order@.len() && #[trigger] order@[j]
                                                == k;
                                        assert(j < i);
                                        assert(listed(order@, k, i as int));
                                    }
                                }
                                assert(cells[k] == c && members@.contains(k) && !earlier(
                                    order@,
                                    i + 1,
                                ).contains(k));
                            }
                        }
                        assert(before.settled_at(host, c));
                        assert(!before.depends(t, c)) by {
                            if before.depends(t, c) {
                                assert(before.edges().contains((t, c)));
                                assert(lists[top as int].contains(c));
                                let k = choose|k: int|
                                    0 <= k < cells.len() && #[trigger] cells[k] == c;
                                assert(members@.contains(top as int) && lists[top as int].contains(
                                    cells[k],
                                ));
                                assert(members@.contains(k));
                                assert(listed(order@, k, i as int)) by {
                                    if !listed(order@, k, i as int) {
                                        assert(cells[k] == c && members@.contains(k) && !earlier(
                                            order@,
                                            i as int,
                                        ).contains(k));
                                    }
                                }
                                let j = choose|j: int|
                                    0 <= j < i && j < order@.len() && #[trigger] order@[j] == k;
                                assert(members@.contains(top as int) && lists[top as int].contains(
                                    cells[order@[j] as int],
                                ));
                                assert(listed(order@, top as int, j));
                                let x = choose|x: int|
                                    0 <= x < j && x < order@.len() && #[trigger] order@[x] == top;
                                assert(order@[x] == order@[i as int]);
                            }
                        }
                    }
                }
            }
            i += 1;
        }
        proof {
            assert forall|c: AbsCell| sound implies #[trigger] self@.settled_at(host, c) by {
                if awaited(cells, members@, earlier(order@, i as int), c) {
                    let k = choose|k: int|
                        0 <= k < cells.len() && #[trigger] cells[k] == c && members@.contains(k)
                            && !earlier(order@, i as int).contains(k);
                    assert(listed(order@, k, order@.len() as int));
                }
            }
        }
    }

    /// Gives `cell` the value `value` and no formula, and carries the change
    /// forward to the cells that depend on it. A cell that is given the empty
    /// value holds nothing afterwards.
    pub fn set_value<H: Fn(Request) -> Reply>(&mut self, cell: AbsCell, value: CellValue, host: &H)
        requires
            old(self).wf(),
            serves(host),
        ensures
            final(self).wf(),
            final(self)@.recomputed_from(old(self)@.with_value(cell, value@)),
            old(self)@.consistent(host) ==> final(self)@.consistent(host),
    {
        let mut referenced: Vec<AbsCell> = Vec::new();
        match self.values.get(cell) {
            Some(data) => match &data.formula {
                Some(formula) => {
                    proof {
                        assert(self@.cells.contains_key(cell));
                        formula.legal_is_nameable(cell, self.rows, self.cols);
                    }
                    formula.collect_referenced_cells(cell, &mut referenced);
                },
                None => {},
            },
            None => {},
        }
        self.graph.remove_edges_to(cell, &referenced);
        let ghost given = value@;
        if value.is_empty() {
            let _ = self.values.remove(cell);
        } else {
            self.values.insert(cell, CellData { value: Ok(value), formula: None });
        }
        proof {
            let sheet = old(self)@.with_value(cell, given);
            assert(self@.cells =~= sheet.cells);
            assert(self@ == sheet);
            assert forall|e: Edge| self.graph.edges().contains(e) <==> sheet.edges().contains(
                e,
            ) by {
                assert(old(self)@.edges().contains(e) <==> old(self)@.depends(e.0, e.1));
                if e.1 == cell {
                    assert(!sheet.depends(e.0, e.1));
                    if old(self)@.depends(e.0, e.1) {
                        assert(referenced@.contains(e.0));
                    }
                } else {
                    assert(sheet.depends(e.0, e.1) <==> old(self)@.depends(e.0, e.1));
                }
            }
            assert(self.graph.edges() =~= sheet.edges());
            assert(sheet.edges().subset_of(old(self)@.edges())) by {
                assert forall|e: Edge| sheet.edges().contains(e) implies old(self)@.edges().contains(
                    e,
                ) by {}
            }
            fewer_edges_acyclic(sheet.edges(), old(self)@.edges());
            if old(self)@.consistent(host) {
                assert forall|c: AbsCell| c != cell && !sheet.depends(cell, c) implies #[trigger] sheet.settled_at(
                    host,
                    c,
                ) by {
                    assert(old(self)@.settled_at(host, c));
                    settled_stays(host, old(self)@, sheet, cell, c);
                }
            }
        }
        self.update_cells(cell, host);
    }

    /// Gives `cell` the formula `expression` and carries the change forward,
    /// unless the formula reads outside the grid or would make the cell depend
    /// on itself: then nothing is changed.
    pub fn set_expression<H: Fn(Request) -> Reply>(
        &mut self,
        cell: AbsCell,
        expression: Expression,
        host: &H,
    ) -> (outcome: StorageError)
        requires
            old(self).wf(),
            serves(host),
        ensures
            final(self).wf(),
            outcome == old(self)@.verdict(cell, expression),
            outcome != StorageError::Success ==> final(self)@ == old(self)@ && final(self).edges()
                == old(self).edges(),
            outcome == StorageError::Success ==> final(self)@.recomputed_from(
                old(self)@.with_formula(cell, expression),
            ),
            old(self)@.consistent(host) ==> final(self)@.consistent(host),
    {
        if !expression.check_legal(cell, self.rows, self.cols) {
            return StorageError::InvalidCell;
        }
        let mut before: Vec<AbsCell> = Vec::new();
        match self.values.get(cell) {
            Some(data) => match &data.formula {
                Some(formula) => {
                    proof {
                        assert(self@.cells.contains_key(cell));
                        formula.legal_is_nameable(cell, self.rows, self.cols);
                    }
                    formula.collect_referenced_cells(cell, &mut before);
                },
                None => {},
            },
            None => {},
        }
        let mut after: Vec<AbsCell> = Vec::new();
        proof {
            expression.legal_is_nameable(cell, self.rows, self.cols);
        }
        expression.collect_referenced_cells(cell, &mut after);
        self.graph.remove_edges_to(cell, &before);
        self.graph.add_edges_to(cell, &after);
        let ghost sheet = old(self)@.with_formula(cell, expression);
        proof {
            assert forall|e: Edge| self.graph.edges().contains(e) <==> sheet.edges().contains(
                e,
            ) by {
                assert(old(self)@.edges().contains(e) <==> old(self)@.depends(e.0, e.1));
                if e.1 == cell {
                    assert(sheet.depends(e.0, e.1) <==> expression.reads(cell, e.0));
                    assert(after@.contains(e.0) <==> expression.reads(cell, e.0));
                    if old(self)@.depends(e.0, e.1) {
                        assert(before@.contains(e.0));
                    }
                } else {
                    assert(sheet.depends(e.0, e.1) <==> old(self)@.depends(e.0, e.1));
                }
            }
            assert(self.graph.edges() =~= sheet.edges());
        }
        if self.check_circular(cell) {
            self.graph.remove_edges_to(cell, &after);
            self.graph.add_edges_to(cell, &before);
            proof {
                assert forall|e: Edge| self.graph.edges().contains(e) <==> old(
                    self,
                ).graph.edges().contains(e) by {
                    assert(old(self)@.edges().contains(e) <==> old(self)@.depends(e.0, e.1));
                    if e.1 == cell {
                        if old(self)@.depends(e.0, e.1) {
                            assert(before@.contains(e.0));
                        }
                        if before@.contains(e.0) {
                            assert(old(self)@.depends(e.0, e.1));
                        }
                    }
                }
                assert(self.graph.edges() =~= old(self).graph.edges());
            }
            return StorageError::CircularDependency;
        }
        let i = self.values.seek(cell);
        if i < self.values.len() && self.values.cell_at(i) == cell {
            proof {
                self.values.entry_in_view(i as int);
            }
            let mut data = self.values.exchange(i, CellData::default_instance());
            data.formula = Some(expression);
            let _ = self.values.exchange(i, data);
        } else {
            self.values.insert(cell, CellData { value: Ok(CellValue::Empty), formula: Some(expression) });
        }
        proof {
            assert(self@.cells =~= sheet.cells);
            assert(self@ == sheet);
            assert forall|e: Edge| #[trigger]
                sheet.edges().contains(e) && !old(self)@.edges().contains(e) implies e.1
                == cell by {
                if e.1 != cell {
                    assert(sheet.depends(e.0, e.1) <==> old(self)@.depends(e.0, e.1));
                }
            }
            edges_to_one_cell_acyclic(old(self)@.edges(), sheet.edges(), cell);
            if old(self)@.consistent(host) {
                assert forall|c: AbsCell| c != cell && !sheet.depends(cell, c) implies #[trigger] sheet.settled_at(
                    host,
                    c,
                ) by {
                    assert(old(self)@.settled_at(host, c));
                    settled_stays(host, old(self)@, sheet, cell, c);
                }
            }
        }
        self.update_cells(cell, host);
        StorageError::Success
    }

    /// What every cell of the rectangle between `top_left` and
    /// `bottom_right` holds, in row-major order; a cell that holds nothing is
    /// given as an unwritten cell. A rectangle whose corners are out of order
    /// holds no cell.
    pub fn get_value_range_full(&self, top_left: AbsCell, bottom_right: AbsCell) -> (found: Vec<
        (AbsCell, CellData),
    >)
        requires
            self.wf(),
        ensures
            found@.len() == rectangle(top_left, bottom_right).len(),
            forall|k: int|
                0 <= k < found@.len() ==> recorded(#[trigger] found@[k]) == (
                    rectangle(top_left, bottom_right)[k],
                    self@.record(rectangle(top_left, bottom_right)[k]),
                ),
    {
        let mut found: Vec<(AbsCell, CellData)> = Vec::new();
        if !(top_left.row <= bottom_right.row && top_left.col <= bottom_right.col) {
            return found;
        }
        let ghost cells = rectangle(top_left, bottom_right);
        let ghost width = bottom_right.col - top_left.col + 1;
        let mut row: i32 = top_left.row as i32;
        proof {
            rectangle_size(top_left, bottom_right);
        }
        while row <= bottom_right.row as i32
            invariant
                self.wf(),
                top_left.row <= row <= bottom_right.row + 1,
                top_left.col <= bottom_right.col,
                cells == rectangle(top_left, bottom_right),
                width == bottom_right.col - top_left.col + 1,
                cells.len() == (bottom_right.row - top_left.row + 1) * width,
                found@.len() == (row - top_left.row) * width,
                found@.len() <= cells.len(),
                forall|k: int|
                    0 <= k < found@.len() ==> recorded(#[trigger] found@[k]) == (
                        cells[k],
                        self@.record(cells[k]),
                    ),
            decreases bottom_right.row + 1 - row,
        {
            let mut col: i32 = top_left.col as i32;
            while col <= bottom_right.col as i32
                invariant
                    self.wf(),
                    top_left.row <= row <= bottom_right.row,
                    top_left.col <= col <= bottom_right.col + 1,
                    cells == rectangle(top_left, bottom_right),
                    width == bottom_right.col - top_left.col + 1,
                    cells.len() == (bottom_right.row - top_left.row + 1) * width,
                    found@.len() == (row - top_left.row) * width + (col - top_left.col),
                    found@.len() <= cells.len(),
                    forall|k: int|
                        0 <= k < found@.len() ==> recorded(#[trigger] found@[k]) == (
                            cells[k],
                            self@.record(cells[k]),
                        ),
                decreases bottom_right.col + 1 - col,
            {
                let cell = AbsCell { row: row as i16, col: col as i16 };
                proof {
                    rectangle_at(top_left, bottom_right, row as int, col as int);
                }
                let data = match self.values.get(cell) {
                    Some(data) => data.clone(),
                    None => CellData::default_instance(),
                };
                found.push((cell, data));
                col = col + 1;
            }
            proof {
                assert((row - top_left.row) * width + width == (row + 1 - top_left.row) * width)
                    by (nonlinear_arith);
            }
            row = row + 1;
            proof {
                assert((row - top_left.row) * width <= (bottom_right.row - top_left.row + 1) * width)
                    by (nonlinear_arith)
                    requires
                        row <= bottom_right.row + 1,
                        width > 0,
                ;
            }
        }
        found
    }

    /// Every cell that holds something, with what it holds, in row-major
    /// order.
    pub fn entries(&self) -> (found: Vec<(AbsCell, CellData)>)
        requires
            self.wf(),
        ensures
            forall|k: int|
                0 <= k < found@.len() ==> self@.cells.contains_key((#[trigger] found@[k]).0)
                    && found@[k].1@ == self@.cells[found@[k].0],
            forall|i: int, j: int|
                0 <= i < j < found@.len() ==> (#[trigger] found@[i]).0.precedes(
                    (#[trigger] found@[j]).0,
                ),
            forall|cell: AbsCell| #[trigger]
                self@.cells.contains_key(cell) ==> exists|k: int|
                    0 <= k < found@.len() && (#[trigger] found@[k]).0 == cell,
    {
        let mut found: Vec<(AbsCell, CellData)> = Vec::new();
        let n = self.values.len();
        let mut i: usize = 0;
        proof {
            self.values.cells_ascend();
        }
        while i < n
            invariant
                self.wf(),
                n == self.values.cells().len(),
                i <= n,
                found@.len() == i,
                crate::common::cell_map::ascending(self.values.cells()),
                forall|k: int|
                    0 <= k < i ==> (#[trigger] found@[k]).0 == self.values.cells()[k] && found@[k].1@
                        == self@.cells[found@[k].0] && self@.cells.contains_key(found@[k].0),
            decreases n - i,
        {
            proof {
                self.values.entry_in_view(i as int);
            }
            let cell = self.values.cell_at(i);
            let data = self.values.item_at(i).clone();
            found.push((cell, data));
            i += 1;
        }
        proof {
            assert forall|cell: AbsCell| #[trigger] self@.cells.contains_key(cell) implies exists|
                k: int,
            | 0 <= k < found@.len() && (#[trigger] found@[k]).0 == cell by {
                self.values.view_in_entries(cell);
                let k = self.values.slot(cell);
                assert(found@[k].0 == cell);
            }
        }
        found
    }

    /// The formula of `cell` as text, if the cell has a formula; `host`
    /// writes the numbers.
    pub fn get_cell_formula<H: Fn(Request) -> Reply>(&self, cell: AbsCell, host: &H) -> (text:
        Option<String>)
        requires
            self.wf(),
            serves(host),
        ensures
            match self@.formula(cell) {
                Some(formula) => text matches Some(written) && writes_formula(
                    host,
                    formula,
                    cell,
                    written@,
                ),
                None => text is None,
            },
    {
        match self.values.get(cell) {
            Some(data) => match &data.formula {
                Some(formula) => {
                    proof {
                        assert(self@.cells.contains_key(cell));
                        formula.legal_is_nameable(cell, self.rows, self.cols);
                    }
                    Some(formula.to_string(cell, host))
                },
                None => None,
            },
            None => None,
        }
    }

    /// What `cell` was given: its formula as text if it has one, else its
    /// value; `host` writes the numbers of the formula.
    pub fn get_input<H: Fn(Request) -> Reply>(&self, cell: AbsCell, host: &H) -> (input: CellInput)
        requires
            self.wf(),
            serves(host),
        ensures
            self@.given(host, cell, input@),
    {
        match self.values.get(cell) {
            None => CellInput::Value(CellValue::Empty),
            Some(data) => {
                proof {
                    assert(self@.cells.contains_key(cell));
                }
                match &data.formula {
                    Some(formula) => {
                        proof {
                            formula.legal_is_nameable(cell, self.rows, self.cols);
                        }
                        CellInput::Formula(formula.to_string(cell, host))
                    },
                    None => match &data.value {
                        Ok(value) => CellInput::Value(value.clone()),
                        Err(_) => CellInput::Value(CellValue::Empty),
                    },
                }
            },
        }
    }

    /// Gives `to` what `from` was given: its formula, with every reference
    /// as far from `to` as it was from `from`, or its value where it has no
    /// formula.
    pub fn copy_cell_expression<H: Fn(Request) -> Reply>(
        &mut self,
        from: AbsCell,
        to: AbsCell,
        host: &H,
    ) -> (outcome: StorageError)
        requires
            old(self).wf(),
            serves(host),
        ensures
            final(self).wf(),
            old(self)@.consistent(host) ==> final(self)@.consistent(host),
            match old(self)@.formula(from) {
                Some(formula) => {
                    &&& outcome == old(self)@.verdict(to, formula)
                    &&& outcome != StorageError::Success ==> final(self)@ == old(self)@ && final(self).edges() == old(self).edges()
                    &&& outcome == StorageError::Success ==> final(self)@.recomputed_from(
                        old(self)@.with_formula(to, formula),
                    )
                },
                None => {
                    &&& outcome == StorageError::Success
                    &&& old(self)@.value(from) matches Ok(value) && final(self)@.recomputed_from(
                        old(self)@.with_value(to, value),
                    )
                },
            },
    {
        let input = match self.values.get(from) {
            Some(data) => {
                proof {
                    assert(self@.cells.contains_key(from));
                }
                match &data.formula {
                    Some(formula) => Ok(formula.clone()),
                    None => match &data.value {
                        Ok(value) => Err(value.clone()),
                        Err(_) => Err(CellValue::Empty),
                    },
                }
            },
            None => Err(CellValue::Empty),
        };
        match input {
            Ok(formula) => self.set_expression(to, formula, host),
            Err(value) => {
                self.set_value(to, value, host);
                StorageError::Success
            },
        }
    }

    /// Whether a path of one edge or more leads from `cell` back to `cell`
    /// in the graph of the store. The store need not be sound: the graph may
    /// hold the edges of a formula that is being tried. In a sound store no
    /// cell is found to depend on itself.
    pub fn check_circular(&self, cell: AbsCell) -> (found: bool)
        requires
            self.linked(),
        ensures
            found == connected(self.edges(), cell, cell),
            self.wf() ==> !found,
    {
        self.graph.returns_to(cell)
    }

    /// The first cell after `start`, in row-major order, that holds text or
    /// a number in whose notation `to_search` stands; `host` writes the
    /// numbers. Empty cells and cells in error are passed over.
    pub fn search<H: Fn(Request) -> Reply>(&self, start: AbsCell, to_search: &str, host: &H) -> (found:
        Option<AbsCell>)
        requires
            self.wf(),
            serves(host),
        ensures
            self@.searched(host, start, to_search@, found),
    {
        let needle = to_chars(to_search);
        let n = self.values.len();
        let at = self.values.seek(start);
        let first = if at < n && self.values.cell_at(at) == start {
            at + 1
        } else {
            at
        };
        let mut i: usize = first;
        while i < n
            invariant
                self.wf(),
                serves(host),
                needle@ == to_search@,
                n == self.values.cells().len(),
                at <= first <= i <= n,
                first == at || (first == at + 1 && self.values.cells()[at as int] == start),
                forall|j: int| 0 <= j < at ==> (#[trigger] self.values.cells()[j]).precedes(start),
                forall|j: int|
                    at <= j < n ==> !(#[trigger] self.values.cells()[j]).precedes(start),
                first == at && at < n ==> self.values.cells()[at as int] != start,
                forall|k: int|
                    first <= k < i ==> miss(
                        host,
                        self@.cells[#[trigger] self.values.cells()[k]],
                        to_search@,
                    ),
            decreases n - i,
        {
            let cell = self.values.cell_at(i);
            proof {
                self.values.entry_in_view(i as int);
                assert(self@.cells.contains_key(cell));
            }
            let item = self.values.item_at(i);
            assert(self@.cells[cell] == item@);
            let matched = match &item.value {
                Ok(CellValue::String(text)) => {
                    let hay = to_chars(text.as_str());
                    contains_text(&hay, &needle)
                },
                Ok(CellValue::Number(number)) => {
                    let hay = ask_notation(host, *number);
                    let matched = contains_text(&hay, &needle);
                    proof {
                        assert(item@.value == Ok::<Content, CellError>(Content::Number(*number)));
                        assert(writes_number(host, *number, hay@));
                        assert(matched ==> hit(host, item@, to_search@));
                        assert(!matched ==> miss(host, item@, to_search@));
                    }
                    matched
                },
                _ => false,
            };
            assert(matched ==> hit(host, self@.cells[cell], to_search@));
            assert(!matched ==> miss(host, self@.cells[cell], to_search@));
            if matched {
                proof {
                    self.values.cells_ascend();
                    assert(!self.values.cells()[i as int].precedes(start));
                    assert(cell != start) by {
                        if cell == start {
                            if first == at {
                                if i > at {
                                    assert(self.values.cells()[at as int].precedes(cell));
                                }
                            } else {
                                assert(self.values.cells()[at as int].precedes(cell));
                            }
                        }
                    }
                    assert forall|other: AbsCell|
                        #[trigger] self@.cells.contains_key(other) && start.precedes(other)
                            && other.precedes(cell) implies miss(
                        host,
                        self@.cells[other],
                        to_search@,
                    ) by {
                        self.values.view_in_entries(other);
                        let k = self.values.slot(other);
                        if k < at {
                            assert(self.values.cells()[k].precedes(start));
                        }
                        if k > i {
                            assert(self.values.cells()[i as int].precedes(self.values.cells()[k]));
                        }
                        assert(first <= k < i);
                    }
                }
                return Some(cell);
            }
            i += 1;
        }
        proof {
            assert forall|other: AbsCell|
                #[trigger] self@.cells.contains_key(other) && start.precedes(other) implies miss(
                host,
                self@.cells[other],
                to_search@,
            ) by {
                self.values.view_in_entries(other);
                let k = self.values.slot(other);
                if k < at {
                    assert(self.values.cells()[k].precedes(start));
                }
                assert(first <= k < i);
            }
        }
        None
    }

    /// The first cell of the grid, in row-major order, that holds text or a
    /// number in whose notation `to_search` stands.
    pub fn search_from_start<H: Fn(Request) -> Reply>(&self, to_search: &str, host: &H) -> (found:
        Option<AbsCell>)
        requires
            self.wf(),
            serves(host),
        ensures
            self@.searched(host, AbsCell { row: 0i16, col: -1i16 }, to_search@, found),
    {
        self.search(AbsCell::new(0, -1), to_search, host)
    }
}

/// The value that a cell is given when its formula gave `out`.
pub open spec fn stored(out: Result<Number, CellError>) -> Result<Content, CellError> {
    match out {
        Ok(n) => Ok(Content::Number(n)),
        Err(e) => Err(e),
    }
}

/// Whether the value of `cell` in `sheet` is what its formula `f` may give
/// there, with the arithmetic of `host`.
pub open spec fn yields<H: Fn(Request) -> Reply>(
    host: &H,
    sheet: Sheet,
    cell: AbsCell,
    f: Expression,
) -> bool {
    exists|out: Result<Number, CellError>| #[trigger]
        chosen(out) && evaluates(host, sheet, cell, f, out) && sheet.value(cell) == stored(out)
}

/// A cell stays settled when another cell, which it does not read, is given
/// another value.
pub proof fn settled_stays<H: Fn(Request) -> Reply>(
    host: &H,
    before: Sheet,
    after: Sheet,
    changed: AbsCell,
    cell: AbsCell,
)
    requires
        before.tidy(),
        forall|other: AbsCell| other != changed ==> after.record(other) == before.record(other),
        cell != changed,
        !before.depends(changed, cell),
        before.settled_at(host, cell),
    ensures
        after.settled_at(host, cell),
{
    match before.formula(cell) {
        Some(f) => {
            assert(before.cells.contains_key(cell));
            let out = choose|out: Result<Number, CellError>| #[trigger]
                chosen(out) && evaluates(host, before, cell, f, out) && before.value(cell)
                    == stored(out);
            assert(alike_for(before, after, cell, f)) by {
                assert forall|c: AbsCell| #[trigger] f.reads(cell, c) implies before.value(c)
                    == after.value(c) by {
                    assert(c != changed);
                }
            }
            evaluates_alike(host, before, after, cell, f, out, before.rows, before.cols);
            assert(chosen(out));
            assert(yields(host, after, cell, f));
        },
        None => {},
    }
}

/// With a host that answers with one value only, the formulas and the
/// values that were put in decide every value: two settled sheets with the
/// same formulas, and the same values in the cells without one, are the same.
pub proof fn settled_sheets_agree<H: Fn(Request) -> Reply>(host: &H, a: Sheet, b: Sheet)
    requires
        a.wf(),
        b.recomputed_from(a),
        single_valued(host),
        a.consistent(host),
        b.consistent(host),
    ensures
        b == a,
{
    let differing = Set::new(|c: AbsCell| a.cells.contains_key(c) && a.value(c) != b.value(c));
    assert(differing.subset_of(a.cells.dom()));
    vstd::set_lib::lemma_len_subset(differing, a.cells.dom());
    assert forall|c: AbsCell| #[trigger] differing.contains(c) implies exists|r: AbsCell|
        differing.contains(r) && #[trigger] a.edges().contains((r, c)) by {
        assert(a.cells.contains_key(c) && b.cells.contains_key(c));
        assert(a.settled_at(host, c));
        assert(b.settled_at(host, c));
        let f = a.formula(c)->Some_0;
        assert(b.formula(c) == Some(f));
        let x = choose|out: Result<Number, CellError>| #[trigger]
            chosen(out) && evaluates(host, a, c, f, out) && a.value(c) == stored(out);
        let y = choose|out: Result<Number, CellError>| #[trigger]
            chosen(out) && evaluates(host, b, c, f, out) && b.value(c) == stored(out);
        if alike_for(a, b, c, f) {
            evaluates_alike(host, a, b, c, f, x, a.rows, a.cols);
            evaluates_once(host, b, c, f, x, y);
        } else {
            let r = choose|r: AbsCell| #[trigger] f.reads(c, r) && a.value(r) != b.value(r);
            assert(a.cells.contains_key(r)) by {
                if !a.cells.contains_key(r) {
                    assert(!b.cells.contains_key(r));
                }
            }
            assert(differing.contains(r));
            assert(a.depends(r, c));
            assert(a.edges().contains((r, c)));
        }
    }
    closed_set_is_empty(a.edges(), differing);
    assert forall|c: AbsCell| a.cells.contains_key(c) implies #[trigger] a.cells[c] == b.cells[c] by {
        assert(!differing.contains(c));
        assert(b.cells.contains_key(c));
    }
    assert(a.cells =~= b.cells);
}

/// Whether `needle` stands in a notation that `host` gives for `n`.
pub open spec fn shows<H: Fn(Request) -> Reply>(host: &H, n: Number, needle: Seq<char>) -> bool {
    exists|text: Seq<char>| #[trigger] writes_number(host, n, text) && occurs(text, needle)
}

/// Whether `needle` does not stand in a notation that `host` gives for `n`.
pub open spec fn hides<H: Fn(Request) -> Reply>(host: &H, n: Number, needle: Seq<char>) -> bool {
    exists|text: Seq<char>| #[trigger] writes_number(host, n, text) && !occurs(text, needle)
}

/// Whether a search for `needle` may stop at a cell that holds `record`: its
/// text holds `needle`, or a notation that `host` gives for its number does.
pub open spec fn hit<H: Fn(Request) -> Reply>(host: &H, record: Record, needle: Seq<char>) -> bool {
    match record.value {
        Ok(Content::Text(text)) => occurs(text, needle),
        Ok(Content::Number(n)) => shows(host, n, needle),
        _ => false,
    }
}

/// Whether a search for `needle` may pass a cell that holds `record`: it is
/// empty or in error, its text does not hold `needle`, or a notation that
/// `host` gives for its number does not.
pub open spec fn miss<H: Fn(Request) -> Reply>(host: &H, record: Record, needle: Seq<char>) -> bool {
    match record.value {
        Ok(Content::Text(text)) => !occurs(text, needle),
        Ok(Content::Number(n)) => hides(host, n, needle),
        _ => true,
    }
}

/// Whether `cell` comes before the slot in row `row` and column `col` in
/// row-major order.
pub open spec fn reaches_before(cell: AbsCell, row: int, col: int) -> bool {
    cell.row < row || (cell.row == row && cell.col < col)
}

/// Cells that hold nothing add nothing to the entries of a walk.
pub proof fn held_skips(sheet: Sheet, cells: Seq<AbsCell>, from: int, to: int)
    requires
        0 <= from <= to <= cells.len(),
        forall|k: int| from <= k < to ==> !sheet.cells.contains_key(#[trigger] cells[k]),
    ensures
        sheet.held(cells.take(to)) == sheet.held(cells.take(from)),
    decreases to - from,
{
    if from < to {
        held_skips(sheet, cells, from, to - 1);
        assert(cells.take(to).drop_last() =~= cells.take(to - 1));
        assert(cells.take(to).last() == cells[to - 1]);
    }
}

/// Every cell of the walk of a rectangle lies between its corners.
pub proof fn rectangle_within(top_left: AbsCell, bottom_right: AbsCell, k: int)
    requires
        0 <= k < rectangle(top_left, bottom_right).len(),
    ensures
        top_left.row <= rectangle(top_left, bottom_right)[k].row <= bottom_right.row,
        top_left.col <= rectangle(top_left, bottom_right)[k].col <= bottom_right.col,
{
    let width = bottom_right.col - top_left.col + 1;
    let height = bottom_right.row - top_left.row + 1;
    assert(0 <= k / width < height && 0 <= k % width < width) by (nonlinear_arith)
        requires
            0 <= k < height * width,
            width > 0,
            height > 0,
    ;
}

/// The size of a rectangle.
pub proof fn rectangle_size(top_left: AbsCell, bottom_right: AbsCell)
    requires
        top_left.row <= bottom_right.row,
        top_left.col <= bottom_right.col,
    ensures
        rectangle(top_left, bottom_right).len() == (bottom_right.row - top_left.row + 1) * (
        bottom_right.col - top_left.col + 1),
{
    assert((bottom_right.row - top_left.row + 1) * (bottom_right.col - top_left.col + 1) >= 0)
        by (nonlinear_arith)
        requires
            top_left.row <= bottom_right.row,
            top_left.col <= bottom_right.col,
    ;
}

/// The place of a cell in the row-major walk of a rectangle.
pub proof fn rectangle_at(top_left: AbsCell, bottom_right: AbsCell, row: int, col: int)
    requires
        top_left.row <= row <= bottom_right.row,
        top_left.col <= col <= bottom_right.col,
    ensures
        ({
            let width = bottom_right.col - top_left.col + 1;
            let k = (row - top_left.row) * width + (col - top_left.col);
            &&& 0 <= k < rectangle(top_left, bottom_right).len()
            &&& rectangle(top_left, bottom_right)[k] == AbsCell { row: row as i16, col: col as i16 }
        }),
{
    let width = bottom_right.col - top_left.col + 1;
    let height = bottom_right.row - top_left.row + 1;
    let r = row - top_left.row;
    let c = col - top_left.col;
    let k = r * width + c;
    rectangle_size(top_left, bottom_right);
    assert(0 <= k < height * width) by (nonlinear_arith)
        requires
            0 <= r < height,
            0 <= c < width,
            k == r * width + c,
    ;
    assert(k / width == r && k % width == c) by (nonlinear_arith)
        requires
            0 <= r,
            0 <= c < width,
            k == r * width + c,
    ;
}

} // verus!
