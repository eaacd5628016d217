//! The evaluator: what a formula gives for the cell that owns it, read from
//! the store as it stands. It changes nothing in the store.
use vstd::prelude::*;
use crate::common::cell_value::{CellError, CellValue, Content};
use crate::common::expression::{Expression, Operator};
use crate::common::number::{
    ask, chosen, computes, computes_once, serves, single_valued, Number, Reply, Request,
};
use crate::common::structs::{AbsCell, RelCell};
use crate::embedded_backend::storage::{rectangle, rectangle_within, Sheet, Storage};

pub mod functions;

verus! {

/// The cell that `rel` names, counted from `origin`.
pub open spec fn target(rel: RelCell, origin: AbsCell) -> AbsCell {
    AbsCell { row: rel.row_at(origin) as i16, col: rel.col_at(origin) as i16 }
}

/// What a cell gives to a formula that refers to it: its number, zero if it
/// is empty, an error if it holds text, and its own error if it has one.
pub open spec fn operand(value: Result<Content, CellError>) -> Result<Number, CellError> {
    match value {
        Ok(Content::Number(n)) => Ok(n),
        Ok(Content::Empty) => Ok(Number::zero()),
        Ok(Content::Text(_)) => Err(CellError::DependsOnNonNumeric),
        Err(e) => Err(e),
    }
}

/// Whether `out` may come of `op` on `x` and what the right operand gave: the
/// error of the right operand; the error of a division by zero; else one
/// answer of `host`.
pub open spec fn applies<H: Fn(Request) -> Reply>(
    host: &H,
    op: Operator,
    x: Number,
    right: Result<Number, CellError>,
    out: Result<Number, CellError>,
) -> bool {
    match right {
        Err(e) => out == Err::<Number, CellError>(e),
        Ok(y) => if op == Operator::Divide && y.is_zero() {
            out == Err::<Number, CellError>(CellError::DivideByZero)
        } else {
            out matches Ok(n) && computes(host, Request::Binary(op, x, y), n)
        },
    }
}

/// Whether `out` may be what the formula `e` of the cell `origin` gives in
/// `sheet`, with the arithmetic of `host`.
///
/// A number gives itself, a reference what its cell gives as an operand. An
/// operator gives the error of its left operand, else that of its right,
/// else the error of a division by zero, else what `host` answers. A function
/// of a range gives what the function makes of the range. A delay gives what
/// its argument gives.
pub open spec fn evaluates<H: Fn(Request) -> Reply>(
    host: &H,
    sheet: Sheet,
    origin: AbsCell,
    e: Expression,
    out: Result<Number, CellError>,
) -> bool
    decreases e,
{
    match e {
        Expression::Number(n) => out == Ok::<Number, CellError>(n),
        Expression::Cell(rel) => out == operand(sheet.value(target(rel, origin))),
        Expression::BinaryOp(lhs, op, rhs) => exists|left: Result<Number, CellError>| #[trigger]
            chosen(left) && evaluates(host, sheet, origin, *lhs, left) && match left {
                Err(e) => out == Err::<Number, CellError>(e),
                Ok(x) => exists|right: Result<Number, CellError>| #[trigger]
                    chosen(right) && evaluates(host, sheet, origin, *rhs, right) && applies(
                        host,
                        op,
                        x,
                        right,
                        out,
                    ),
            },
        Expression::RangeFunction(function, range) => functions::aggregates(
            host,
            function,
            sheet,
            origin,
            range,
            out,
        ),
        Expression::Sleep(inner) => evaluates(host, sheet, origin, *inner, out),
    }
}

/// Whether two sheets give the same value to every cell that the formula
/// `e` of the cell `origin` reads.
pub open spec fn alike_for(a: Sheet, b: Sheet, origin: AbsCell, e: Expression) -> bool {
    forall|c: AbsCell| #[trigger] e.reads(origin, c) ==> a.value(c) == b.value(c)
}

/// What a formula gives depends only on the values of the cells that it
/// reads.
pub proof fn evaluates_alike<H: Fn(Request) -> Reply>(
    host: &H,
    a: Sheet,
    b: Sheet,
    origin: AbsCell,
    e: Expression,
    out: Result<Number, CellError>,
    rows: u16,
    cols: u16,
)
    requires
        e.legal_at(origin, rows, cols),
        alike_for(a, b, origin, e),
        evaluates(host, a, origin, e, out),
    ensures
        evaluates(host, b, origin, e, out),
    decreases e,
{
    match e {
        Expression::Number(_) => {},
        Expression::Cell(rel) => {
            assert(e.reads(origin, target(rel, origin)));
        },
        Expression::BinaryOp(lhs, op, rhs) => {
            assert forall|c: AbsCell| #[trigger] lhs.reads(origin, c) implies a.value(c) == b.value(
                c,
            ) by {
                assert(e.reads(origin, c));
            }
            assert forall|c: AbsCell| #[trigger] rhs.reads(origin, c) implies a.value(c) == b.value(
                c,
            ) by {
                assert(e.reads(origin, c));
            }
            let left = choose|left: Result<Number, CellError>| #[trigger]
                chosen(left) && evaluates(host, a, origin, *lhs, left) && match left {
                    Err(e) => out == Err::<Number, CellError>(e),
                    Ok(x) => exists|right: Result<Number, CellError>| #[trigger]
                        chosen(right) && evaluates(host, a, origin, *rhs, right) && applies(
                            host,
                            op,
                            x,
                            right,
                            out,
                        ),
                };
            evaluates_alike(host, a, b, origin, *lhs, left, rows, cols);
            match left {
                Err(_) => {},
                Ok(x) => {
                    let right = choose|right: Result<Number, CellError>| #[trigger]
                        chosen(right) && evaluates(host, a, origin, *rhs, right) && applies(
                            host,
                            op,
                            x,
                            right,
                            out,
                        );
                    evaluates_alike(host, a, b, origin, *rhs, right, rows, cols);
                    assert(chosen(right));
                },
            }
            assert(chosen(left));
        },
        Expression::RangeFunction(function, range) => {
            let first = functions::first_corner(range, origin);
            let last = functions::last_corner(range, origin);
            let cells = rectangle(first, last);
            assert forall|k: int| 0 <= k < cells.len() implies a.value(cells[k]) == b.value(
                cells[k],
            ) by {
                rectangle_within(first, last, k);
                assert(e.reads(origin, cells[k]));
            }
            assert(a.values_of(cells) =~= b.values_of(cells));
        },
        Expression::Sleep(inner) => {
            assert forall|c: AbsCell| #[trigger] inner.reads(origin, c) implies a.value(c)
                == b.value(c) by {
                assert(e.reads(origin, c));
            }
            evaluates_alike(host, a, b, origin, *inner, out, rows, cols);
        },
    }
}

/// With a host that answers with one value only, a formula gives one result
/// only.
pub proof fn evaluates_once<H: Fn(Request) -> Reply>(
    host: &H,
    sheet: Sheet,
    origin: AbsCell,
    e: Expression,
    a: Result<Number, CellError>,
    b: Result<Number, CellError>,
)
    requires
        single_valued(host),
        evaluates(host, sheet, origin, e, a),
        evaluates(host, sheet, origin, e, b),
    ensures
        a == b,
    decreases e,
{
    match e {
        Expression::BinaryOp(lhs, op, rhs) => {
            let l1 = choose|left: Result<Number, CellError>| #[trigger]
                chosen(left) && evaluates(host, sheet, origin, *lhs, left) && match left {
                    Err(e) => a == Err::<Number, CellError>(e),
                    Ok(x) => exists|right: Result<Number, CellError>| #[trigger]
                        chosen(right) && evaluates(host, sheet, origin, *rhs, right) && applies(
                            host,
                            op,
                            x,
                            right,
                            a,
                        ),
                };
            let l2 = choose|left: Result<Number, CellError>| #[trigger]
                chosen(left) && evaluates(host, sheet, origin, *lhs, left) && match left {
                    Err(e) => b == Err::<Number, CellError>(e),
                    Ok(x) => exists|right: Result<Number, CellError>| #[trigger]
                        chosen(right) && evaluates(host, sheet, origin, *rhs, right) && applies(
                            host,
                            op,
                            x,
                            right,
                            b,
                        ),
                };
            evaluates_once(host, sheet, origin, *lhs, l1, l2);
            match l1 {
                Err(_) => {},
                Ok(x) => {
                    let r1 = choose|right: Result<Number, CellError>| #[trigger]
                        chosen(right) && evaluates(host, sheet, origin, *rhs, right) && applies(
                            host,
                            op,
                            x,
                            right,
                            a,
                        );
                    let r2 = choose|right: Result<Number, CellError>| #[trigger]
                        chosen(right) && evaluates(host, sheet, origin, *rhs, right) && applies(
                            host,
                            op,
                            x,
                            right,
                            b,
                        );
                    evaluates_once(host, sheet, origin, *rhs, r1, r2);
                    match r1 {
                        Err(_) => {},
                        Ok(y) => {
                            if !(op == Operator::Divide && y.is_zero()) {
                                computes_once(
                                    host,
                                    Request::Binary(op, x, y),
                                    a->Ok_0,
                                    b->Ok_0,
                                );
                            }
                        },
                    }
                },
            }
        },
        Expression::RangeFunction(function, range) => {
            functions::aggregates_once(host, function, sheet, origin, range, a, b);
        },
        Expression::Sleep(inner) => {
            evaluates_once(host, sheet, origin, *inner, a, b);
        },
        _ => {},
    }
}

/// What the formula `expr` of the cell `cell` gives in the store. Where a
/// delay has an argument greater than zero, the host is asked to wait that
/// long.
pub fn evaluate<H: Fn(Request) -> Reply>(
    storage: &Storage,
    cell: AbsCell,
    expr: &Expression,
    host: &H,
) -> (out: Result<Number, CellError>)
    requires
        storage.wf(),
        serves(host),
        expr.legal_at(cell, storage@.rows, storage@.cols),
    ensures
        evaluates(host, storage@, cell, *expr, out),
    decreases expr,
{
    match expr {
        Expression::Number(x) => Ok(*x),
        Expression::Cell(c) => {
            match storage.get_value(c.to_abs(cell)) {
                Ok(CellValue::Number(n)) => Ok(n),
                Ok(CellValue::Empty) => Ok(Number::make_zero()),
                Ok(CellValue::String(_)) => Err(CellError::DependsOnNonNumeric),
                Err(e) => Err(e),
            }
        },
        Expression::BinaryOp(lhs, op, rhs) => {
            let left = evaluate(storage, cell, lhs, host);
            let x = match left {
                Err(e) => {
                    assert(chosen(left));
                    return Err(e);
                },
                Ok(x) => x,
            };
            let right = evaluate(storage, cell, rhs, host);
            let out = match right {
                Err(e) => Err(e),
                Ok(y) => {
                    if matches!(op, Operator::Divide) && y.zero_valued() {
                        Err(CellError::DivideByZero)
                    } else {
                        Ok(ask(host, Request::Binary(*op, x, y)))
                    }
                },
            };
            assert(chosen(left) && chosen(right));
            out
        },
        Expression::RangeFunction(f, range) => functions::aggregate(
            storage,
            cell,
            *f,
            range,
            host,
        ),
        Expression::Sleep(inner) => {
            let out = evaluate(storage, cell, inner, host);
            match out {
                Ok(x) => {
                    if x.positive() {
                        let _ = ask(host, Request::Delay(x));
                    }
                },
                Err(_) => {},
            }
            out
        },
    }
}

} // verus!
