use embedded::spreadsheet::{col_to_letter, is_within_range, Cell, Formula, Operand, Spreadsheet};

/// A pause that does not wait.
fn pause(_seconds: i32) {}

/// Whether the formula of `cell` reads `on`.
fn depends_on(sheet: &Spreadsheet, cell: (u16, u16), on: (u16, u16)) -> bool {
    match sheet.formula_of(cell) {
        Some(Formula::Sleep(c)) | Some(Formula::Reference(c)) => c == on,
        Some(Formula::Binary(_, a, b)) => a == Operand::Cell(on) || b == Operand::Cell(on),
        Some(Formula::Range(_, start, end)) => {
            start.0 <= on.0 && on.0 <= end.0 && start.1 <= on.1 && on.1 <= end.1
        }
        None => false,
    }
}

#[test]
fn test_col_to_letter() {
    assert_eq!(col_to_letter(1), "A");
    assert_eq!(col_to_letter(26), "Z");
    assert_eq!(col_to_letter(27), "AA");
    assert_eq!(col_to_letter(52), "AZ");
    assert_eq!(col_to_letter(53), "BA");
    assert_eq!(col_to_letter(702), "ZZ");
    assert_eq!(col_to_letter(703), "AAA");
}

#[test]
fn test_set_literal_value() {
    let mut sheet = Spreadsheet::new(10, 10);

    // Test setting a literal value
    let result = sheet.set_cell((1, 1), "42", &pause);
    assert_eq!(result, 0); // Success
    assert_eq!(sheet.get_val((1, 1)), Some(42));

    // Test setting a negative value
    let result = sheet.set_cell((2, 2), "-123", &pause);
    assert_eq!(result, 0); // Success
    assert_eq!(sheet.get_val((2, 2)), Some(-123));
}

#[test]
fn test_set_invalid_cell() {
    let mut sheet = Spreadsheet::new(10, 10);

    // Test setting a value to a cell outside the bounds
    let result = sheet.set_cell((11, 11), "42", &pause);
    assert_eq!(result, 1); // Invalid cell code

    // Cells within bounds should be settable
    let result = sheet.set_cell((10, 10), "42", &pause);
    assert_eq!(result, 0); // Success
}

#[test]
fn test_set_cell_reference() {
    let mut sheet = Spreadsheet::new(10, 10);

    // Set a literal value in A1
    sheet.set_cell((1, 1), "42", &pause);

    // Set B2 to reference A1
    let result = sheet.set_cell((2, 2), "A1", &pause);
    assert_eq!(result, 0); // Success
    assert_eq!(sheet.get_val((2, 2)), Some(42));

    // Verify dependency is tracked
    assert!(depends_on(&sheet, (2, 2), (1, 1)));
    assert!(sheet.formula_of((2, 2)).is_some());

    // Change A1 and verify B2 updates
    sheet.set_cell((1, 1), "99", &pause);
    assert_eq!(sheet.get_val((1, 1)), Some(99));
    assert_eq!(sheet.get_val((2, 2)), Some(99));
}

#[test]
fn test_set_binary_formula() {
    let mut sheet = Spreadsheet::new(10, 10);

    // Set some values
    sheet.set_cell((1, 1), "5", &pause);
    sheet.set_cell((2, 2), "10", &pause);

    // Test addition
    let result = sheet.set_cell((3, 3), "A1+B2", &pause);
    assert_eq!(result, 0); // Success
    assert_eq!(sheet.get_val((3, 3)), Some(15));

    // Test subtraction
    let result = sheet.set_cell((4, 4), "B2-A1", &pause);
    assert_eq!(result, 0); // Success
    assert_eq!(sheet.get_val((4, 4)), Some(5));

    // Test multiplication
    let result = sheet.set_cell((5, 5), "A1*B2", &pause);
    assert_eq!(result, 0); // Success
    assert_eq!(sheet.get_val((5, 5)), Some(50));

    // Test division
    let result = sheet.set_cell((6, 6), "B2/A1", &pause);
    assert_eq!(result, 0); // Success
    assert_eq!(sheet.get_val((6, 6)), Some(2));

    // Test division by zero
    let result = sheet.set_cell((7, 7), "A1/0", &pause);
    assert_eq!(result, 0); // It should still succeed but cell value is ERR
    assert_eq!(sheet.get_val((7, 7)), None);

    // Test with literal and cell reference
    let result = sheet.set_cell((8, 8), "A1+20", &pause);
    assert_eq!(result, 0); // Success
    assert_eq!(sheet.get_val((8, 8)), Some(25));
}

#[test]
fn test_range_functions() {
    let mut sheet = Spreadsheet::new(10, 10);

    // Set some values
    sheet.set_cell((1, 1), "10", &pause);
    sheet.set_cell((2, 1), "20", &pause);
    sheet.set_cell((3, 1), "30", &pause);
    sheet.set_cell((1, 2), "40", &pause);
    sheet.set_cell((2, 2), "50", &pause);
    sheet.set_cell((3, 2), "60", &pause);

    // Test SUM
    let result = sheet.set_cell((5, 5), "SUM(A1:C2)", &pause);
    assert_eq!(result, 0); // Success
    assert_eq!(sheet.get_val((5, 5)), Some(210)); // 10+20+30+40+50+60

    // Test AVERAGE
    let result = sheet.set_cell((6, 6), "AVG(A1:C2)", &pause);
    assert_eq!(result, 0); // Success
    assert_eq!(sheet.get_val((6, 6)), Some(35)); // (10+20+30+40+50+60)/6

    // Test MIN
    let result = sheet.set_cell((7, 7), "MIN(A1:C2)", &pause);
    assert_eq!(result, 0); // Success
    assert_eq!(sheet.get_val((7, 7)), Some(10));

    // Test MAX
    let result = sheet.set_cell((8, 8), "MAX(A1:C2)", &pause);
    assert_eq!(result, 0); // Success
    assert_eq!(sheet.get_val((8, 8)), Some(60));

    // Test invalid range (start > end)
    let result = sheet.set_cell((9, 9), "SUM(C2:A1)", &pause);
    assert_eq!(result, 3); // Invalid command code
}

#[test]
fn test_sleep_function() {
    let mut sheet = Spreadsheet::new(10, 10);

    // Set a literal sleep time (0 to avoid actually sleeping in tests)
    let result = sheet.set_cell((1, 1), "SLEEP(-1)", &pause);
    assert_eq!(result, 0); // Success
    assert_eq!(sheet.get_val((1, 1)), Some(-1));

    // Set a cell with a value
    sheet.set_cell((2, 2), "1", &pause);

    // Set a sleep with cell reference
    let result = sheet.set_cell((3, 3), "SLEEP(B2)", &pause);
    assert_eq!(result, 0); // Success
    assert_eq!(sheet.get_val((3, 3)), Some(1));

    // Test with invalid range in SLEEP
    let result = sheet.set_cell((4, 4), "SLEEP(A1:B2)", &pause);
    assert_eq!(result, 3); // Invalid command code
}

#[test]
fn test_cycle_detection() {
    let mut sheet = Spreadsheet::new(10, 10);

    // Create a valid dependency chain: A1 -> B2 -> C3
    sheet.set_cell((1, 1), "42", &pause);
    sheet.set_cell((2, 2), "A1", &pause);
    sheet.set_cell((3, 3), "B2", &pause);

    // Try to create a cycle: C3 -> A1 (would make A1 -> B2 -> C3 -> A1)
    let result = sheet.set_cell((1, 1), "C3", &pause);
    assert_eq!(result, 4); // Cycle detected code

    // A1 should still have its first value
    assert_eq!(sheet.get_val((1, 1)), Some(42));

    // Test direct self-reference
    let result = sheet.set_cell((4, 4), "D4", &pause);
    assert_eq!(result, 4); // Cycle detected code

    // Test cycle with range function
    sheet.set_cell((5, 5), "10", &pause);
    let result = sheet.set_cell((5, 5), "SUM(E5:E5)", &pause);
    assert_eq!(result, 4); // Cycle detected code
}

#[test]
fn test_dependency_recalculation() {
    let mut sheet = Spreadsheet::new(10, 10);

    // Setup a chain of dependencies
    sheet.set_cell((1, 1), "5", &pause); // A1 = 5
    sheet.set_cell((2, 2), "A1*2", &pause); // B2 = A1*2 = 10
    sheet.set_cell((3, 3), "B2+3", &pause); // C3 = B2+3 = 13

    // Verify initial values
    assert_eq!(sheet.get_val((1, 1)), Some(5));
    assert_eq!(sheet.get_val((2, 2)), Some(10));
    assert_eq!(sheet.get_val((3, 3)), Some(13));

    // Change A1 and verify chain updates
    sheet.set_cell((1, 1), "7", &pause);
    assert_eq!(sheet.get_val((1, 1)), Some(7));
    assert_eq!(sheet.get_val((2, 2)), Some(14)); // B2 = 7*2 = 14
    assert_eq!(sheet.get_val((3, 3)), Some(17)); // C3 = 14+3 = 17
}

#[test]
fn test_range_dependency_updates() {
    let mut sheet = Spreadsheet::new(10, 10);

    // Set some values in a range
    sheet.set_cell((1, 1), "10", &pause);
    sheet.set_cell((2, 1), "20", &pause);
    sheet.set_cell((1, 2), "30", &pause);
    sheet.set_cell((2, 2), "40", &pause);

    // Set a cell using range function
    sheet.set_cell((5, 5), "SUM(A1:B2)", &pause);
    assert_eq!(sheet.get_val((5, 5)), Some(100)); // 10+20+30+40

    // Change a value in the range and verify sum updates
    sheet.set_cell((1, 1), "15", &pause);
    assert_eq!(sheet.get_val((5, 5)), Some(105)); // 15+20+30+40
}

#[test]
fn test_error_propagation() {
    let mut sheet = Spreadsheet::new(10, 10);

    // Create a division by zero error
    sheet.set_cell((1, 1), "10/0", &pause);
    assert_eq!(sheet.get_val((1, 1)), None); // None indicates Cell::Err

    // Reference the error cell
    sheet.set_cell((2, 2), "A1", &pause);
    assert_eq!(sheet.get_val((2, 2)), None); // Error should propagate

    // Use the error cell in a formula
    sheet.set_cell((3, 3), "A1+5", &pause);
    assert_eq!(sheet.get_val((3, 3)), None); // Error should propagate

    // Use the error cell in a range function
    sheet.set_cell((4, 4), "SUM(A1:A1)", &pause);
    assert_eq!(sheet.get_val((4, 4)), None); // Error should propagate
}

#[test]
fn test_mixed_references_and_literals() {
    let mut sheet = Spreadsheet::new(10, 10);

    sheet.set_cell((1, 1), "10", &pause);

    // Test with cell reference and literal
    let result = sheet.set_cell((2, 2), "A1+5", &pause);
    assert_eq!(result, 0);
    assert_eq!(sheet.get_val((2, 2)), Some(15));

    // Test with literal and cell reference
    let result = sheet.set_cell((3, 3), "5+A1", &pause);
    assert_eq!(result, 0);
    assert_eq!(sheet.get_val((3, 3)), Some(15));

    // Test with cell reference and cell reference
    sheet.set_cell((4, 4), "20", &pause);
    let result = sheet.set_cell((5, 5), "A1+D4", &pause);
    assert_eq!(result, 0);
    assert_eq!(sheet.get_val((5, 5)), Some(30));
}

#[test]
fn test_clear_dependencies() {
    let mut sheet = Spreadsheet::new(10, 10);

    // Setup dependencies
    sheet.set_cell((1, 1), "10", &pause);
    sheet.set_cell((2, 2), "A1", &pause);

    // Verify dependency exists
    assert!(depends_on(&sheet, (2, 2), (1, 1)));
    assert!(sheet.formula_of((2, 2)).is_some());

    // Change B2 to a literal
    sheet.set_cell((2, 2), "20", &pause);

    // Verify dependency is removed
    assert!(!depends_on(&sheet, (2, 2), (1, 1)));
    let a = sheet.formula_of((2, 2));
    assert!(a.is_none());
    // and a change of A1 no longer reaches B2
    sheet.set_cell((1, 1), "11", &pause);
    assert_eq!(sheet.get_val((2, 2)), Some(20));
}

#[test]
fn test_is_within_range() {
    // Test cell inside range
    assert!(is_within_range((2, 2), (1, 1), (3, 3)));

    // Test cell on the edge of range
    assert!(is_within_range((1, 1), (1, 1), (3, 3)));
    assert!(is_within_range((3, 3), (1, 1), (3, 3)));

    // Test cell outside range
    assert!(!is_within_range((4, 4), (1, 1), (3, 3)));

    // Test with reversed range coordinates
    assert!(is_within_range((2, 2), (3, 3), (1, 1)));
}

#[test]
fn test_sleep_function_with_cell_reference_error() {
    let mut sheet = Spreadsheet::new(10, 10);

    // Set a cell that will be Err
    sheet.set_cell((1, 1), "10/0", &pause);
    assert_eq!(sheet.get_val((1, 1)), None); // Should be Err

    // Test SLEEP with reference to an Err cell
    let result = sheet.set_cell((2, 2), "SLEEP(A1)", &pause);
    assert_eq!(result, 0); // Should succeed but result in Err
    assert_eq!(sheet.get_val((2, 2)), None); // Should be Err

    // Test with invalid cell reference
    let result = sheet.set_cell((3, 3), "SLEEP(Z99)", &pause); // Out of bounds reference
    assert_eq!(result, 0);
    assert_eq!(sheet.get_val((3, 3)), None); // Should be Err
}

#[test]
fn test_binary_operations_with_errors() {
    let mut sheet = Spreadsheet::new(10, 10);

    // Set a cell with Err
    sheet.set_cell((1, 1), "10/0", &pause);

    // Test binary operation with an Err cell
    let result = sheet.set_cell((2, 2), "A1+5", &pause);
    assert_eq!(result, 0);
    assert_eq!(sheet.get_val((2, 2)), None); // Should be Err

    // Test with two Err cells
    sheet.set_cell((3, 3), "10/0", &pause);
    let result = sheet.set_cell((4, 4), "A1+C3", &pause);
    assert_eq!(result, 0);
    assert_eq!(sheet.get_val((4, 4)), None); // Should be Err

    // Test with invalid cell reference
    let result = sheet.set_cell((5, 5), "Z99+5", &pause);
    assert_eq!(result, 0);
    assert_eq!(sheet.get_val((5, 5)), None); // Should be Err due to invalid reference
}

#[test]
fn test_binary_operations_parsable_expressions() {
    let mut sheet = Spreadsheet::new(10, 10);

    // Test with invalid left-hand side
    let result = sheet.set_cell((1, 1), "abc+5", &pause);
    assert_eq!(result, 3); // Should return unrecognized command

    // Test with invalid right-hand side
    let result = sheet.set_cell((2, 2), "5+xyz", &pause);
    assert_eq!(result, 3); // Should return unrecognized command

    // Test with invalid operator
    let result = sheet.set_cell((3, 3), "5%10", &pause);
    assert_eq!(result, 3); // Should return unrecognized command
}

#[test]
fn test_formula_cycle_detection_with_sleep() {
    let mut sheet = Spreadsheet::new(10, 10);

    // Setup reference chain with sleep
    sheet.set_cell((1, 1), "5", &|_seconds: i32| {});
    sheet.set_cell((2, 2), "SLEEP(A1)", &|_seconds: i32| {});

    // Try to create a cycle
    let result = sheet.set_cell((1, 1), "B2", &pause);
    assert_eq!(result, 4); // Should detect cycle
    assert_eq!(sheet.get_val((1, 1)), Some(5)); // Should retain its first value
}

#[test]
fn test_recalculation_with_sleep() {
    let mut sheet = Spreadsheet::new(10, 10);

    // Setup chain with sleep
    sheet.set_cell((1, 1), "1", &pause);
    sheet.set_cell((2, 2), "SLEEP(A1)", &pause);
    sheet.set_cell((3, 3), "B2+1", &pause);

    // Initial values
    assert_eq!(sheet.get_val((1, 1)), Some(1));
    assert_eq!(sheet.get_val((2, 2)), Some(1));
    assert_eq!(sheet.get_val((3, 3)), Some(2));

    // Change the sleep time
    sheet.set_cell((1, 1), "0", &pause); // Set to 0 to avoid actual sleeping in tests

    // Check recalculation
    assert_eq!(sheet.get_val((1, 1)), Some(0));
    assert_eq!(sheet.get_val((2, 2)), Some(0));
    assert_eq!(sheet.get_val((3, 3)), Some(1));
}

#[test]
fn test_multiple_binary_operation_chains() {
    let mut sheet = Spreadsheet::new(10, 10);

    // Setup complex calculation chain
    sheet.set_cell((1, 1), "10", &pause);
    sheet.set_cell((2, 2), "A1*2", &pause); // B2 = 20
    sheet.set_cell((3, 3), "B2-5", &pause); // C3 = 15
    sheet.set_cell((4, 4), "C3/3", &pause); // D4 = 5
    sheet.set_cell((5, 5), "D4+A1", &pause); // E5 = 15

    // Check initial values
    assert_eq!(sheet.get_val((2, 2)), Some(20));
    assert_eq!(sheet.get_val((3, 3)), Some(15));
    assert_eq!(sheet.get_val((4, 4)), Some(5));
    assert_eq!(sheet.get_val((5, 5)), Some(15));

    // Change base value and check recalculation
    sheet.set_cell((1, 1), "20", &pause);

    assert_eq!(sheet.get_val((1, 1)), Some(20));
    assert_eq!(sheet.get_val((2, 2)), Some(40)); // B2 = 20*2 = 40
    assert_eq!(sheet.get_val((3, 3)), Some(35)); // C3 = 40-5 = 35
    assert_eq!(sheet.get_val((4, 4)), Some(11)); // D4 = 35/3 = 11 (integer division)
    assert_eq!(sheet.get_val((5, 5)), Some(31)); // E5 = 11+20 = 31
}

#[test]
fn test_display_function() {
    let mut sheet = Spreadsheet::new(5, 5);

    // Populate with test data
    sheet.set_cell((1, 1), "10", &pause); // A1
    sheet.set_cell((2, 2), "20", &pause); // B2
    sheet.set_cell((3, 3), "30", &pause); // C3
    sheet.set_cell((4, 4), "A1/0", &pause); // D4 (Error)
    sheet.set_cell((5, 5), "50", &pause); // E5

    // Capture output in a string buffer
    let output_str = sheet.display_to(0, 0, 5, 5);

    // Verify expected content
    assert!(output_str.contains("A"));
    assert!(output_str.contains("B"));
    assert!(output_str.contains("10"));
    assert!(output_str.contains("20"));
    assert!(output_str.contains("ERR"));
    assert!(output_str.contains("50"));
}

#[test]
fn a_new_cell_holds_zero() {
    assert_eq!(Cell::new(), Cell::Value(0));
    let sheet = Spreadsheet::new(3, 4);
    assert_eq!(sheet.rows, 3);
    assert_eq!(sheet.cols, 4);
    assert_eq!(sheet.get_val((4, 3)), Some(0));
    assert_eq!(sheet.get_val((5, 3)), None);
    assert_eq!(sheet.get_val((4, 4)), None);
}

#[test]
fn column_zero_has_no_letters() {
    assert_eq!(col_to_letter(0), "");
    assert_eq!(col_to_letter(18278), "ZZZ");
}

#[test]
fn the_display_is_laid_out_in_columns() {
    let mut sheet = Spreadsheet::new(3, 3);
    sheet.set_cell((1, 1), "-7", &pause);
    sheet.set_cell((2, 1), "1/0", &pause);
    sheet.set_cell((3, 2), "123456789", &pause);
    let text = sheet.display_to(0, 0, 2, 3);
    assert_eq!(
        text,
        "           A       B       C\n  1       -7     ERR       0\n  2        0       0123456789\n"
    );
    // a view that starts further in, and one that starts beyond the sheet
    assert_eq!(
        sheet.display_to(1, 2, 10, 10),
        "           C\n  2 123456789\n  3        0\n"
    );
    assert_eq!(sheet.display_to(3, 3, 10, 10), "    \n");
    assert_eq!(sheet.display_to(0, 0, 0, 0), "    \n");
}

#[test]
fn a_refused_text_changes_nothing() {
    let mut sheet = Spreadsheet::new(10, 10);
    sheet.set_cell((1, 1), "4", &pause);
    sheet.set_cell((2, 1), "A1+1", &pause);
    let before = sheet.display_to(0, 0, 10, 10);
    for text in ["", "abc", "1+", "A1+B", "SUM(A1:Z99)", "FOO(A1:B2)", "SLEEP(A1:B2)", "SLEEP(x)", "5%3"] {
        assert_eq!(sheet.set_cell((2, 1), text, &pause), 3, "{:?}", text);
    }
    assert_eq!(sheet.set_cell((2, 1), "2147483647+1", &pause), 5);
    assert_eq!(sheet.set_cell((1, 1), "B1", &pause), 4);
    assert_eq!(sheet.display_to(0, 0, 10, 10), before);
    assert_eq!(
        sheet.formula_of((2, 1)),
        Some(Formula::Binary(1, Operand::Cell((1, 1)), Operand::Literal(1)))
    );
    // the formula is still evaluated when A1 changes
    sheet.set_cell((1, 1), "9", &pause);
    assert_eq!(sheet.get_val((2, 1)), Some(10));
    assert!(!sheet.has_cycle_from((1, 1)));
}

#[test]
fn a_delay_waits_as_long_as_its_cell_holds() {
    let waited = std::cell::RefCell::new(Vec::new());
    let record = |seconds: i32| waited.borrow_mut().push(seconds);
    let mut sheet = Spreadsheet::new(10, 10);
    sheet.set_cell((1, 1), "3", &record);
    sheet.set_cell((2, 1), "SLEEP(A1)", &record);
    sheet.set_cell((3, 1), "SLEEP(2)", &record);
    sheet.set_cell((4, 1), "SLEEP(0)", &record);
    sheet.set_cell((1, 1), "5", &record);
    sheet.set_cell((1, 1), "-5", &record);
    assert_eq!(waited.borrow().clone(), vec![3, 2, 5]);
    assert_eq!(sheet.get_val((2, 1)), Some(-5));
    assert_eq!(sheet.get_val((3, 1)), Some(2));
    assert_eq!(sheet.formula_of((3, 1)), None);
    assert_eq!(sheet.formula_of((2, 1)), Some(Formula::Sleep((1, 1))));
}

#[test]
fn a_range_with_the_deviation() {
    let mut sheet = Spreadsheet::new(10, 10);
    for (i, v) in [2, 4, 4, 4, 5, 5, 7, 9].iter().enumerate() {
        sheet.set_cell((1, i as u16 + 1), &v.to_string(), &pause);
    }
    assert_eq!(sheet.set_cell((3, 3), "STDEV(A1:A8)", &pause), 0);
    assert_eq!(sheet.get_val((3, 3)), Some(2));
    assert_eq!(sheet.set_cell((3, 4), "STDEV(A1:A1)", &pause), 0);
    assert_eq!(sheet.get_val((3, 4)), Some(0));
}

#[test]
fn a_cell_read_along_two_ways_is_evaluated_after_both() {
    let mut sheet = Spreadsheet::new(10, 10);
    assert_eq!(sheet.set_cell((1, 1), "1", &pause), 0);
    assert_eq!(sheet.set_cell((2, 1), "A1+1", &pause), 0);
    assert_eq!(sheet.set_cell((3, 1), "A1*2", &pause), 0);
    assert_eq!(sheet.set_cell((4, 1), "B1+C1", &pause), 0);
    assert_eq!(sheet.set_cell((5, 1), "SUM(A1:D1)", &pause), 0);
    assert_eq!(sheet.get_val((4, 1)), Some(4));
    assert_eq!(sheet.get_val((5, 1)), Some(9));

    assert_eq!(sheet.set_cell((1, 1), "10", &pause), 0);
    assert_eq!(sheet.get_val((2, 1)), Some(11));
    assert_eq!(sheet.get_val((3, 1)), Some(20));
    assert_eq!(sheet.get_val((4, 1)), Some(31));
    assert_eq!(sheet.get_val((5, 1)), Some(72));
}

#[test]
fn a_result_too_large_marks_the_dependent_cell() {
    let mut sheet = Spreadsheet::new(10, 10);
    assert_eq!(sheet.set_cell((1, 1), "2", &pause), 0);
    assert_eq!(sheet.set_cell((2, 1), "A1*1000000000", &pause), 0);
    assert_eq!(sheet.get_val((2, 1)), Some(2000000000));
    assert_eq!(sheet.set_cell((1, 1), "3", &pause), 0);
    assert_eq!(sheet.get_val((2, 1)), None);
    assert_eq!(sheet.set_cell((1, 1), "1", &pause), 0);
    assert_eq!(sheet.get_val((2, 1)), Some(1000000000));
}
