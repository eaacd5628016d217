use embedded::common::cell_value::{CellData, CellError, CellValue};
use embedded::common::expression::{CellRange, Expression, Operator, RangeFunction};
use embedded::common::number::{Number, Reply, Request};
use embedded::common::structs::{AbsCell, RelCell};
use embedded::embedded_backend::calc_engine::evaluate;
use embedded::embedded_backend::calc_engine::functions::{average, max, min, stdev, sum};
use embedded::embedded_backend::graph::DependencyGraph;
use embedded::embedded_backend::simple::{EmbeddedBackend, ExpressionError};
use embedded::embedded_backend::storage::{Storage, StorageError};
use embedded::embedded_backend::structs::CellInput;
use embedded::parser::formula_parser::FormulaParser;

fn value(n: Number) -> f64 {
    f64::from_bits(n.bits)
}

fn number(x: f64) -> Number {
    Number::new(x.to_bits())
}

fn num(x: f64) -> CellValue {
    CellValue::Number(number(x))
}

fn text(s: &str) -> CellValue {
    CellValue::String(s.to_string())
}

fn host(request: Request) -> Reply {
    let mut text: Vec<char> = Vec::new();
    let x = match request {
        Request::Literal(literal) => literal.iter().collect::<String>().parse::<f64>().unwrap(),
        Request::Render(n) => {
            text = format!("{}", value(n)).chars().collect();
            0.0
        }
        Request::Binary(Operator::Add, a, b) => value(a) + value(b),
        Request::Binary(Operator::Subtract, a, b) => value(a) - value(b),
        Request::Binary(Operator::Multiply, a, b) => value(a) * value(b),
        Request::Binary(Operator::Divide, a, b) => value(a) / value(b),
        Request::Lesser(a, b) => value(a).min(value(b)),
        Request::Greater(a, b) => value(a).max(value(b)),
        Request::Root(a) => value(a).sqrt(),
        Request::Count(n) => n as f64,
        Request::Delay(_) => 0.0,
    };
    Reply {
        number: number(x),
        text,
    }
}

fn cell(label: &str) -> AbsCell {
    AbsCell::from_str(label).unwrap()
}

/// Enters what a user types: a number, or else a formula.
fn enter(backend: &mut EmbeddedBackend, label: &str, input: &str) -> Result<(), ExpressionError> {
    match input.parse::<f64>() {
        Ok(x) => {
            backend.set_cell_value(cell(label), num(x), &host);
            Ok(())
        }
        Err(_) => backend.set_cell_formula(cell(label), input, &host),
    }
}

fn shown(backend: &EmbeddedBackend, label: &str) -> Result<CellValue, CellError> {
    backend.get_cell_value(cell(label))
}

#[test]
fn test_set_and_get_cell_value() {
    let mut backend = EmbeddedBackend::new(10, 10);
    let cell = AbsCell::new(0, 0);
    backend.set_cell_value(cell, CellValue::Number(number(42.0)), &host);
    assert_eq!(backend.get_cell_value(cell), Ok(CellValue::Number(number(42.0))));
}

#[test]
fn test_set_and_get_cell_formula() {
    let mut backend = EmbeddedBackend::new(10, 10);
    let cell = AbsCell::from_str("C1").unwrap();
    backend.set_cell_value(
        AbsCell::from_str("A1").unwrap(),
        CellValue::Number(number(42.0)),
        &host,
    );
    backend.set_cell_formula(cell, "A1+B1", &host).unwrap();
    println!("{:?}", backend.get_cell_formula(cell, &host));
    assert_eq!(backend.get_cell_value(cell), Ok(CellValue::Number(number(42.0))));
}

#[test]
fn a_change_is_carried_to_the_dependents() {
    let mut b = EmbeddedBackend::new(10, 10);
    enter(&mut b, "A1", "5").unwrap();
    enter(&mut b, "B1", "A1+3").unwrap();
    assert_eq!(shown(&b, "A1"), Ok(num(5.0)));
    assert_eq!(shown(&b, "B1"), Ok(num(8.0)));
    enter(&mut b, "A1", "10").unwrap();
    assert_eq!(shown(&b, "A1"), Ok(num(10.0)));
    assert_eq!(shown(&b, "B1"), Ok(num(13.0)));
}

#[test]
fn a_sum_follows_its_range() {
    let mut b = EmbeddedBackend::new(10, 10);
    enter(&mut b, "A1", "10").unwrap();
    enter(&mut b, "A2", "20").unwrap();
    enter(&mut b, "A3", "30").unwrap();
    enter(&mut b, "B1", "SUM(A1:A3)").unwrap();
    assert_eq!(shown(&b, "B1"), Ok(num(60.0)));
    enter(&mut b, "A2", "25").unwrap();
    assert_eq!(shown(&b, "B1"), Ok(num(65.0)));
}

#[test]
fn a_cycle_is_refused_and_nothing_changes() {
    let mut b = EmbeddedBackend::new(10, 10);
    enter(&mut b, "A1", "5").unwrap();
    enter(&mut b, "A2", "A1").unwrap();
    enter(&mut b, "A3", "A2").unwrap();
    let before: Vec<(AbsCell, CellData)> = b.get_cell_range(cell("A1"), cell("J10"));
    assert_eq!(
        enter(&mut b, "A1", "A3"),
        Err(ExpressionError::CircularReference)
    );
    assert_eq!(shown(&b, "A1"), Ok(num(5.0)));
    assert_eq!(b.get_cell_formula(cell("A1"), &host), None);
    assert_eq!(b.get_cell_range(cell("A1"), cell("J10")), before);
    // the graph is as it was: a change of A1 is still carried to A2 and A3
    enter(&mut b, "A1", "6").unwrap();
    assert_eq!(shown(&b, "A3"), Ok(num(6.0)));
    // a cell that reads itself is a cycle
    assert_eq!(
        enter(&mut b, "D4", "D4"),
        Err(ExpressionError::CircularReference)
    );
    assert_eq!(
        enter(&mut b, "E5", "SUM(E5:E5)"),
        Err(ExpressionError::CircularReference)
    );
}

#[test]
fn errors_are_stored_and_carried_on() {
    let mut b = EmbeddedBackend::new(10, 10);
    enter(&mut b, "A1", "1").unwrap();
    enter(&mut b, "A2", "0").unwrap();
    enter(&mut b, "B1", "A1/A2").unwrap();
    assert_eq!(shown(&b, "B1"), Err(CellError::DivideByZero));
    enter(&mut b, "C1", "B1+1").unwrap();
    // a reference hands the error of its cell on as it is
    assert_eq!(shown(&b, "C1"), Err(CellError::DivideByZero));
    enter(&mut b, "D1", "SUM(B1:B1)").unwrap();
    assert_eq!(shown(&b, "D1"), Err(CellError::DependsOnErr));
    enter(&mut b, "A2", "2").unwrap();
    assert_eq!(shown(&b, "B1"), Ok(num(0.5)));
    assert_eq!(shown(&b, "C1"), Ok(num(1.5)));
    assert_eq!(shown(&b, "D1"), Ok(num(0.5)));
}

#[test]
fn text_poisons_arithmetic() {
    let mut b = EmbeddedBackend::new(10, 10);
    b.set_cell_value(cell("A1"), text("hello"), &host);
    enter(&mut b, "B1", "A1+1").unwrap();
    assert_eq!(shown(&b, "B1"), Err(CellError::DependsOnNonNumeric));
    enter(&mut b, "A1", "7").unwrap();
    assert_eq!(shown(&b, "B1"), Ok(num(8.0)));
}

#[test]
fn a_copied_formula_keeps_its_distances() {
    let mut b = EmbeddedBackend::new(10, 10);
    enter(&mut b, "A1", "3").unwrap();
    enter(&mut b, "A2", "5").unwrap();
    enter(&mut b, "B1", "A1+A2").unwrap();
    assert_eq!(shown(&b, "B1"), Ok(num(8.0)));
    assert_eq!(b.copy_cell_expression(cell("B1"), cell("B2"), &host), Ok(()));
    assert_eq!(
        b.get_cell_formula(cell("B2"), &host),
        Some("A2 + A3".to_string())
    );
    assert_eq!(shown(&b, "B2"), Ok(num(5.0)));
    // a copy that would read outside the grid is refused
    assert_eq!(
        b.copy_cell_expression(cell("B1"), cell("A1"), &host),
        Err(ExpressionError::InvalidCell)
    );
    assert_eq!(shown(&b, "A1"), Ok(num(3.0)));
    // a value is copied as a value, an empty cell empties
    assert_eq!(b.copy_cell_expression(cell("A1"), cell("C3"), &host), Ok(()));
    assert_eq!(shown(&b, "C3"), Ok(num(3.0)));
    assert_eq!(b.copy_cell_expression(cell("J10"), cell("C3"), &host), Ok(()));
    assert_eq!(shown(&b, "C3"), Ok(CellValue::Empty));
    // a copy onto a cell that the formula reads is a cycle
    assert_eq!(
        b.copy_cell_expression(cell("B2"), cell("A3"), &host),
        Err(ExpressionError::InvalidCell)
    );
    enter(&mut b, "F1", "G1").unwrap();
    enter(&mut b, "G2", "F2").unwrap();
    assert_eq!(
        b.copy_cell_expression(cell("F1"), cell("F2"), &host),
        Err(ExpressionError::CircularReference)
    );
    assert_eq!(b.get_cell_formula(cell("F2"), &host), None);
}

#[test]
fn aggregates_of_empty_and_mixed_ranges() {
    let mut b = EmbeddedBackend::new(999, 18278);
    enter(&mut b, "Z9", "SUM(A1:C3)").unwrap();
    assert_eq!(shown(&b, "Z9"), Ok(num(0.0)));
    enter(&mut b, "A1", "4").unwrap();
    assert_eq!(shown(&b, "Z9"), Ok(num(4.0)));
    b.set_cell_value(cell("B2"), text("text"), &host);
    assert_eq!(shown(&b, "Z9"), Err(CellError::DependsOnNonNumeric));
}

#[test]
fn range_functions_give_exact_values() {
    let mut storage = Storage::new(20, 20);
    for (label, x) in [("A1", 2.0), ("A2", 4.0), ("B1", 4.0), ("B2", 4.0), ("C1", 5.0), ("C2", 5.0), ("D1", 7.0), ("D2", 9.0)] {
        storage.set_value(cell(label), num(x), &host);
    }
    let origin = cell("F6");
    let range = CellRange {
        top_left: cell("A1").to_rel(origin),
        bottom_right: cell("D3").to_rel(origin),
    };
    assert_eq!(sum(&storage, origin, &range, &host), Ok(number(40.0)));
    assert_eq!(min(&storage, origin, &range, &host), Ok(number(2.0)));
    assert_eq!(max(&storage, origin, &range, &host), Ok(number(9.0)));
    // the mean is taken over the cells that hold a number, not over the rectangle
    assert_eq!(average(&storage, origin, &range, &host), Ok(number(5.0)));
    assert_eq!(stdev(&storage, origin, &range, &host), Ok(number(2.0)));
    let empty = CellRange {
        top_left: cell("A5").to_rel(origin),
        bottom_right: cell("D6").to_rel(origin),
    };
    assert_eq!(sum(&storage, origin, &empty, &host), Ok(number(0.0)));
    assert_eq!(min(&storage, origin, &empty, &host), Ok(number(0.0)));
    assert_eq!(max(&storage, origin, &empty, &host), Ok(number(0.0)));
    assert_eq!(average(&storage, origin, &empty, &host), Ok(number(0.0)));
    assert_eq!(stdev(&storage, origin, &empty, &host), Ok(number(0.0)));
    // negative numbers: the least is below zero
    storage.set_value(cell("A5"), num(-3.0), &host);
    storage.set_value(cell("D6"), num(-8.0), &host);
    assert_eq!(min(&storage, origin, &empty, &host), Ok(number(-8.0)));
    assert_eq!(max(&storage, origin, &empty, &host), Ok(number(-3.0)));
    // the first cell in row-major order that cannot be read decides the error
    storage.set_value(cell("B1"), text("x"), &host);
    assert!(matches!(
        storage.set_expression(cell("C1"), Expression::BinaryOp(
            Box::new(Expression::Number(number(1.0))),
            Operator::Divide,
            Box::new(Expression::Number(number(0.0))),
        ), &host),
        StorageError::Success
    ));
    assert_eq!(sum(&storage, origin, &range, &host), Err(CellError::DependsOnNonNumeric));
    storage.set_value(cell("B1"), num(1.0), &host);
    assert_eq!(sum(&storage, origin, &range, &host), Err(CellError::DependsOnErr));
}

#[test]
fn evaluation_follows_the_rules() {
    let mut storage = Storage::new(10, 10);
    storage.set_value(cell("A1"), num(6.0), &host);
    storage.set_value(cell("A2"), text("six"), &host);
    let origin = cell("B2");
    let parser = FormulaParser::new(10, 10);
    let eval = |text: &str| {
        let e = parser.parse(text, origin, &host).unwrap();
        evaluate(&storage, origin, &e, &host).map(value)
    };
    assert_eq!(eval("2.5"), Ok(2.5));
    assert_eq!(eval("A1"), Ok(6.0));
    assert_eq!(eval("A3"), Ok(0.0));
    assert_eq!(eval("A2"), Err(CellError::DependsOnNonNumeric));
    assert_eq!(eval("A1 + 1"), Ok(7.0));
    assert_eq!(eval("A1 - 8"), Ok(-2.0));
    assert_eq!(eval("A1 * 0.5"), Ok(3.0));
    assert_eq!(eval("A1 / 4"), Ok(1.5));
    assert_eq!(eval("A1 / 0"), Err(CellError::DivideByZero));
    assert_eq!(eval("A1 / -0"), Err(CellError::DivideByZero));
    assert_eq!(eval("A1 / A3"), Err(CellError::DivideByZero));
    // the error of the left operand comes first
    assert_eq!(eval("A2 + 1 / 0"), Err(CellError::DependsOnNonNumeric));
    assert_eq!(eval("1 / 0 + A2"), Err(CellError::DivideByZero));
    assert_eq!(eval("SLEEP(0)"), Ok(0.0));
    assert_eq!(eval("SLEEP(0 - 3)"), Ok(-3.0));
    assert_eq!(eval("SLEEP(A2)"), Err(CellError::DependsOnNonNumeric));
    assert_eq!(eval("1 + 2 * 3"), Ok(7.0));
    assert_eq!(eval("(1 + 2) * 3"), Ok(9.0));
    assert_eq!(eval("8 / 4 / 2"), Ok(1.0));
}

#[test]
fn a_delay_asks_the_host_only_for_a_time_above_zero() {
    let storage = Storage::new(10, 10);
    let origin = cell("A1");
    let asked = std::cell::RefCell::new(Vec::new());
    let recording = |request: Request| {
        if let Request::Delay(n) = &request {
            asked.borrow_mut().push(value(*n));
        }
        host(request)
    };
    let delay = |x: f64| Expression::Sleep(Box::new(Expression::Number(number(x))));
    assert_eq!(evaluate(&storage, origin, &delay(0.25), &recording), Ok(number(0.25)));
    assert_eq!(evaluate(&storage, origin, &delay(0.0), &recording), Ok(number(0.0)));
    assert_eq!(evaluate(&storage, origin, &delay(-1.0), &recording), Ok(number(-1.0)));
    assert_eq!(asked.borrow().clone(), vec![0.25]);
}

#[test]
fn values_clear_formulas_and_empty_cells_leave_the_store() {
    let mut storage = Storage::new(10, 10);
    storage.set_value(cell("A1"), num(1.0), &host);
    let e = FormulaParser::new(10, 10).parse("A1 + 1", cell("B1"), &host).unwrap();
    assert!(matches!(storage.set_expression(cell("B1"), e, &host), StorageError::Success));
    assert_eq!(storage.get_value(cell("B1")), Ok(num(2.0)));
    storage.set_value(cell("B1"), num(9.0), &host);
    assert_eq!(storage.get_cell_formula(cell("B1"), &host), None);
    storage.set_value(cell("A1"), num(5.0), &host);
    assert_eq!(storage.get_value(cell("B1")), Ok(num(9.0)));
    storage.set_value(cell("B1"), CellValue::Empty, &host);
    assert_eq!(storage.get_value(cell("B1")), Ok(CellValue::Empty));
    assert_eq!(storage.get_value_range_sparse(cell("A1"), cell("J10")).len(), 1);
    assert!(matches!(storage.get_input(cell("B1"), &host), CellInput::Value(CellValue::Empty)));
}

#[test]
fn a_formula_outside_the_grid_is_refused() {
    let mut storage = Storage::new(10, 10);
    storage.set_value(cell("A1"), num(1.0), &host);
    let outside = Expression::Cell(RelCell::new(0, 10));
    assert!(matches!(
        storage.set_expression(cell("A1"), outside, &host),
        StorageError::InvalidCell
    ));
    let above = Expression::Cell(RelCell::new(-1, 0));
    assert!(matches!(
        storage.set_expression(cell("A1"), above, &host),
        StorageError::InvalidCell
    ));
    let unordered = Expression::RangeFunction(
        RangeFunction::Sum,
        CellRange {
            top_left: RelCell::new(1, 1),
            bottom_right: RelCell::new(0, 0),
        },
    );
    assert!(matches!(
        storage.set_expression(cell("A1"), unordered, &host),
        StorageError::InvalidCell
    ));
    assert_eq!(storage.get_value(cell("A1")), Ok(num(1.0)));
    assert_eq!(storage.get_cell_formula(cell("A1"), &host), None);
    assert!(!storage.check_circular(cell("A1")));
}

#[test]
fn rectangles_are_walked_in_row_major_order() {
    let mut storage = Storage::new(10, 10);
    storage.set_value(cell("B2"), num(1.0), &host);
    storage.set_value(cell("A1"), text("a"), &host);
    storage.set_value(cell("C1"), num(3.0), &host);
    storage.set_value(cell("D4"), num(4.0), &host);
    let sparse = storage.get_value_range_sparse(cell("A1"), cell("C3"));
    assert_eq!(
        sparse,
        vec![
            (cell("A1"), Ok(text("a"))),
            (cell("C1"), Ok(num(3.0))),
            (cell("B2"), Ok(num(1.0))),
        ]
    );
    let full = storage.get_value_range_full(cell("A1"), cell("C3"));
    assert_eq!(full.len(), 9);
    let cells: Vec<AbsCell> = full.iter().map(|pair| pair.0).collect();
    assert_eq!(
        cells,
        ["A1", "B1", "C1", "A2", "B2", "C2", "A3", "B3", "C3"].map(cell).to_vec()
    );
    assert_eq!(full[1].1, CellData::default());
    assert_eq!(full[4].1.value, Ok(num(1.0)));
    assert_eq!(storage.get_value_range_sparse(cell("C3"), cell("A1")), vec![]);
    assert_eq!(storage.get_value_range_full(cell("C3"), cell("A1")), vec![]);
    assert_eq!(storage.get_value_range_full(cell("B2"), cell("B2")).len(), 1);
}

#[test]
fn search_walks_in_row_major_order() {
    let mut b = EmbeddedBackend::new(10, 10);
    b.set_cell_value(cell("B1"), text("needle in hay"), &host);
    b.set_cell_value(cell("A2"), num(12.5), &host);
    b.set_cell_value(cell("C2"), text("another needle"), &host);
    enter(&mut b, "D3", "A2 / 0").unwrap();
    assert_eq!(b.search_from_start("needle", &host), Some(cell("B1")));
    assert_eq!(b.search(cell("B1"), "needle", &host), Some(cell("C2")));
    assert_eq!(b.search(cell("C2"), "needle", &host), None);
    assert_eq!(b.search_from_start("2.5", &host), Some(cell("A2")));
    assert_eq!(b.search_from_start("nothing", &host), None);
    assert_eq!(b.search_from_start("", &host), Some(cell("B1")));
    // a search starts strictly after where it is told to start
    assert_eq!(b.search(cell("A1"), "needle", &host), Some(cell("B1")));
    assert_eq!(b.search(cell("A2"), "12", &host), None);
}

#[test]
fn undo_and_redo_walk_the_history() {
    let mut b = EmbeddedBackend::new(10, 10);
    assert!(!b.undo(&host));
    assert!(!b.redo(&host));
    enter(&mut b, "A1", "1").unwrap();
    enter(&mut b, "B1", "A1 * 10").unwrap();
    enter(&mut b, "A1", "2").unwrap();
    enter(&mut b, "B1", "(A1 + 1) * 10").unwrap();
    assert_eq!(shown(&b, "B1"), Ok(num(30.0)));
    let at_end = b.get_cell_range(cell("A1"), cell("J10"));

    assert!(b.undo(&host));
    assert_eq!(b.get_cell_formula(cell("B1"), &host), Some("A1 * 10".to_string()));
    assert_eq!(shown(&b, "B1"), Ok(num(20.0)));
    assert!(b.redo(&host));
    assert_eq!(b.get_cell_range(cell("A1"), cell("J10")), at_end);

    let mut steps = 0;
    while b.undo(&host) {
        steps += 1;
    }
    assert_eq!(steps, 4);
    assert_eq!(b.get_cell_range(cell("A1"), cell("J10")), EmbeddedBackend::new(10, 10).get_cell_range(cell("A1"), cell("J10")));
    for _ in 0..steps {
        assert!(b.redo(&host));
    }
    assert!(!b.redo(&host));
    assert_eq!(b.get_cell_range(cell("A1"), cell("J10")), at_end);

    // taking back and making again appends nothing to the history
    assert!(b.undo(&host));
    assert!(b.undo(&host));
    assert!(b.redo(&host));
    assert!(b.redo(&host));
    assert!(!b.redo(&host));
    // a new edit leaves nothing to make again
    assert!(b.undo(&host));
    b.set_cell_empty(cell("C3"), &host);
    assert!(!b.redo(&host));
    // an edit that was refused is not in the history
    assert_eq!(enter(&mut b, "A1", "B1"), Err(ExpressionError::CircularReference));
    assert_eq!(enter(&mut b, "A1", "1 +"), Err(ExpressionError::InvalidExpression));
    assert!(b.undo(&host));
    assert_eq!(shown(&b, "C3"), Ok(CellValue::Empty));
    assert_eq!(b.get_cell_formula(cell("B1"), &host), Some("A1 * 10".to_string()));
}

#[test]
fn a_diamond_is_evaluated_after_both_of_its_sides() {
    let mut b = EmbeddedBackend::new(10, 10);
    enter(&mut b, "A1", "1").unwrap();
    enter(&mut b, "B1", "A1 + 1").unwrap();
    enter(&mut b, "B2", "A1 * 10").unwrap();
    enter(&mut b, "C1", "B1 + B2").unwrap();
    enter(&mut b, "D1", "C1 + A1").unwrap();
    assert_eq!(shown(&b, "D1"), Ok(num(13.0)));
    enter(&mut b, "A1", "2").unwrap();
    assert_eq!(shown(&b, "B1"), Ok(num(3.0)));
    assert_eq!(shown(&b, "B2"), Ok(num(20.0)));
    assert_eq!(shown(&b, "C1"), Ok(num(23.0)));
    assert_eq!(shown(&b, "D1"), Ok(num(25.0)));
    // each formula of the change is evaluated once
    let asked = std::cell::RefCell::new(0usize);
    let counting = |request: Request| {
        if let Request::Binary(..) = &request {
            *asked.borrow_mut() += 1;
        }
        host(request)
    };
    b.set_cell_value(cell("A1"), num(3.0), &counting);
    assert_eq!(*asked.borrow(), 4);
    assert_eq!(shown(&b, "D1"), Ok(num(37.0)));
}

#[test]
fn a_long_chain_is_followed_without_recursion() {
    let mut b = EmbeddedBackend::new(999, 10);
    enter(&mut b, "A1", "1").unwrap();
    for row in 2..=999 {
        let formula = format!("A{} + 1", row - 1);
        enter(&mut b, &format!("A{}", row), &formula).unwrap();
    }
    assert_eq!(shown(&b, "A999"), Ok(num(999.0)));
    enter(&mut b, "A1", "0").unwrap();
    assert_eq!(shown(&b, "A999"), Ok(num(998.0)));
    assert_eq!(enter(&mut b, "A1", "A999"), Err(ExpressionError::CircularReference));
}

#[test]
fn the_graph_finds_the_way_back() {
    let mut g = DependencyGraph::new();
    let (a, b, c, d) = (AbsCell::new(0, 0), AbsCell::new(0, 1), AbsCell::new(1, 0), AbsCell::new(5, 5));
    g.add_edge(a, b);
    g.add_edge(b, c);
    g.add_edge(a, c);
    g.add_edge(a, b);
    assert!(!g.returns_to(a));
    assert!(!g.returns_to(d));
    g.add_edge(c, a);
    assert!(g.returns_to(a));
    assert!(g.returns_to(b));
    assert!(g.returns_to(c));
    g.remove_edge(c, a);
    assert!(!g.returns_to(a));
    g.add_edge(d, d);
    assert!(g.returns_to(d));
    assert!(!g.returns_to(a));
    g.add_edges_to(a, &vec![c, d]);
    assert!(g.returns_to(a));
    g.remove_edges_to(a, &vec![c]);
    assert!(!g.returns_to(a));
}

#[test]
fn the_store_keeps_its_size() {
    let storage = Storage::new(7, 8);
    assert_eq!(storage.rows(), 7);
    assert_eq!(storage.cols(), 8);
    let storage = Storage::default();
    assert_eq!(storage.rows(), 999);
    assert_eq!(storage.cols(), 18278);
    assert_eq!(storage.get_value_range_full(cell("ZZZ999"), cell("ZZZ999")).len(), 1);
}

#[test]
fn the_controller_tells_the_refusals_apart() {
    let mut b = EmbeddedBackend::new(10, 10);
    assert_eq!(enter(&mut b, "A1", "1 +"), Err(ExpressionError::InvalidExpression));
    assert_eq!(enter(&mut b, "A1", "NOPE(A1:B2)"), Err(ExpressionError::InvalidExpression));
    assert_eq!(enter(&mut b, "A1", "K1 + 1"), Err(ExpressionError::InvalidCell));
    assert_eq!(enter(&mut b, "A1", "A0"), Err(ExpressionError::InvalidCell));
    assert_eq!(enter(&mut b, "A1", "SUM(B2:B1)"), Err(ExpressionError::InvalidRange));
    assert_eq!(enter(&mut b, "A1", "SUM(B1:K2)"), Err(ExpressionError::InvalidRange));
    assert_eq!(enter(&mut b, "A1", "A1 * 2"), Err(ExpressionError::CircularReference));
    assert!(!b.undo(&host));
    assert_eq!(b.entries(), vec![]);
}

#[test]
fn a_table_of_separated_values_has_a_row_for_each_row() {
    let mut b = EmbeddedBackend::new(10, 10);
    enter(&mut b, "A1", "1.5").unwrap();
    b.set_cell_value(cell("B1"), text("two, three"), &host);
    enter(&mut b, "A2", "A1 / 0").unwrap();
    let rows = b.export_rows(cell("A1"), cell("C2"), &host);
    assert_eq!(
        rows,
        vec![
            vec!["1.5".to_string(), "two, three".to_string(), String::new()],
            vec!["#ERROR".to_string(), String::new(), String::new()],
        ]
    );
    assert_eq!(b.export_rows(cell("B2"), cell("A1"), &host), Vec::<Vec<String>>::new());
    assert_eq!(
        b.export_rows(cell("A1"), cell("A1"), &host),
        vec![vec!["1.5".to_string()]]
    );
}

#[test]
fn the_entries_are_listed_in_row_major_order() {
    let mut b = EmbeddedBackend::new(10, 10);
    enter(&mut b, "B2", "2").unwrap();
    enter(&mut b, "C1", "B2 + 1").unwrap();
    enter(&mut b, "A3", "3").unwrap();
    b.set_cell_empty(cell("A3"), &host);
    let entries = b.entries();
    assert_eq!(
        entries.iter().map(|entry| entry.0).collect::<Vec<_>>(),
        vec![cell("C1"), cell("B2")]
    );
    assert_eq!(entries[0].1.value, Ok(num(3.0)));
    assert!(entries[0].1.formula.is_some());
    assert_eq!(b.rows(), 10);
    assert_eq!(b.cols(), 10);
    // a controller over a store that was built elsewhere
    let mut storage = Storage::new(5, 6);
    storage.set_value(cell("A1"), num(1.0), &host);
    let mut other = EmbeddedBackend::from_storage(storage);
    assert_eq!(other.rows(), 5);
    assert_eq!(other.cols(), 6);
    assert_eq!(shown(&other, "A1"), Ok(num(1.0)));
    assert!(!other.undo(&host));
    assert_eq!(enter(&mut other, "G1", "1"), Ok(()));
    assert_eq!(enter(&mut other, "A1", "G1"), Err(ExpressionError::InvalidCell));
}

#[test]
fn a_sparse_walk_skips_the_holes() {
    let mut storage = Storage::new(999, 18278);
    let corners = [("A1", 1.0), ("ZZZ1", 2.0), ("A999", 3.0), ("ZZZ999", 4.0), ("MM500", 5.0)];
    for (label, x) in corners {
        storage.set_value(cell(label), num(x), &host);
    }
    let all = storage.get_value_range_sparse(cell("A1"), cell("ZZZ999"));
    assert_eq!(
        all,
        vec![
            (cell("A1"), Ok(num(1.0))),
            (cell("ZZZ1"), Ok(num(2.0))),
            (cell("MM500"), Ok(num(5.0))),
            (cell("A999"), Ok(num(3.0))),
            (cell("ZZZ999"), Ok(num(4.0))),
        ]
    );
    let inner = storage.get_value_range_sparse(cell("B2"), cell("ZZY998"));
    assert_eq!(inner, vec![(cell("MM500"), Ok(num(5.0)))]);
    let column = storage.get_value_range_sparse(cell("A1"), cell("A999"));
    assert_eq!(column.len(), 2);
    let e = FormulaParser::new(999, 18278)
        .parse("SUM(A1:ZZZ999) + AVG(A1:ZZZ999)", cell("A2"), &host)
        .unwrap();
    assert_eq!(evaluate(&storage, cell("A2"), &e, &host), Ok(number(18.0)));
}
