use embedded::commands::{CommandHandler, CommandResult};
use embedded::spreadsheet::Spreadsheet;

/// A pause that does not wait.
fn pause(_seconds: i32) {}

#[test]
fn test_command_result_from_code() {
    assert!(matches!(CommandResult::from_code(0), CommandResult::Success));
    assert!(matches!(
        CommandResult::from_code(1),
        CommandResult::InvalidCell
    ));
    assert!(matches!(
        CommandResult::from_code(2),
        CommandResult::InvalidRange
    ));
    assert!(matches!(
        CommandResult::from_code(3),
        CommandResult::UnrecognizedCommand
    ));
    assert!(matches!(
        CommandResult::from_code(4),
        CommandResult::CircularDependency
    ));
    assert!(matches!(
        CommandResult::from_code(5),
        CommandResult::DivisionByZero
    ));
    assert!(matches!(
        CommandResult::from_code(6),
        CommandResult::UnrecognizedCommand
    )); // Unknown codes default to unrecognized
}

#[test]
fn test_command_result_as_str() {
    assert_eq!(CommandResult::Success.as_str(), "ok");
    assert_eq!(CommandResult::InvalidCell.as_str(), "Invalid cell");
    assert_eq!(CommandResult::InvalidRange.as_str(), "Invalid range");
    assert_eq!(
        CommandResult::UnrecognizedCommand.as_str(),
        "unrecognized cmd"
    );
    assert_eq!(
        CommandResult::CircularDependency.as_str(),
        "Circular dependency"
    );
    assert_eq!(CommandResult::DivisionByZero.as_str(), "Division_by_zero");
    assert_eq!(CommandResult::Quit.as_str(), "quit");
}

#[test]
fn test_new_command_handler() {
    let handler = CommandHandler::new();
    assert_eq!(handler.viewport_row, 0);
    assert_eq!(handler.viewport_col, 0);
    assert!(handler.output_enabled);
    assert!(matches!(handler.last_result, CommandResult::Success));
}

#[test]
fn test_quit_commands() {
    let mut handler = CommandHandler::new();
    let mut sheet = Spreadsheet::new(10, 10);

    assert!(matches!(
        handler.handle_command("q", &mut sheet, &pause),
        CommandResult::Quit
    ));
    assert!(matches!(
        handler.handle_command("Q", &mut sheet, &pause),
        CommandResult::Quit
    ));
}

#[test]
fn test_cell_assignment() {
    let mut handler = CommandHandler::new();
    let mut sheet = Spreadsheet::new(10, 10);

    let result = handler.handle_command("", &mut sheet, &pause);
    assert!(matches!(result, CommandResult::Success));

    // Valid cell assignment
    let result = handler.handle_command("A1=42", &mut sheet, &pause);
    assert!(matches!(result, CommandResult::Success));

    // Invalid cell reference
    let result = handler.handle_command("Z99=42", &mut sheet, &pause);
    assert!(matches!(result, CommandResult::InvalidCell));

    // Invalid formula
    let result = handler.handle_command("A2=invalid", &mut sheet, &pause);
    assert!(matches!(result, CommandResult::UnrecognizedCommand));

    // Formula that references other cells
    let _ = handler.handle_command("A2=A1", &mut sheet, &pause);

    // Circular reference
    let result = handler.handle_command("A1=A2", &mut sheet, &pause);
    assert!(matches!(result, CommandResult::CircularDependency));
}

#[test]
fn test_output_toggle_commands() {
    let mut handler = CommandHandler::new();
    let mut sheet = Spreadsheet::new(10, 10);

    // Initially output is enabled
    assert!(handler.should_display());

    // Disable output
    let result = handler.handle_command("disable_output", &mut sheet, &pause);
    assert!(matches!(result, CommandResult::Success));
    assert!(!handler.should_display());

    // Enable output
    let result = handler.handle_command("enable_output", &mut sheet, &pause);
    assert!(matches!(result, CommandResult::Success));
    assert!(handler.should_display());
}

#[test]
fn test_scroll_to_command() {
    let mut handler = CommandHandler::new();
    let mut sheet = Spreadsheet::new(20, 20);

    // Valid scroll
    let result = handler.handle_command("scroll_to B3", &mut sheet, &pause);
    assert!(matches!(result, CommandResult::Success));
    assert_eq!(handler.get_viewport(), (2, 1)); // 1-indexed to 0-indexed

    // Invalid cell reference
    let result = handler.handle_command("scroll_to Z99", &mut sheet, &pause);
    assert!(matches!(result, CommandResult::InvalidCell));

    // Invalid command format
    let result = handler.handle_command("scroll_to", &mut sheet, &pause);
    assert!(matches!(result, CommandResult::InvalidCell));

    // Verify viewport didn't change
    assert_eq!(handler.get_viewport(), (2, 1));
}

#[test]
fn test_navigation_commands() {
    let mut handler = CommandHandler::new();
    let mut sheet = Spreadsheet::new(30, 30);

    // Set initial position to row 15, col 15
    handler.viewport_row = 15;
    handler.viewport_col = 15;

    // Test 'w' (up)
    let result = handler.handle_command("w", &mut sheet, &pause);
    assert!(matches!(result, CommandResult::Success));
    assert_eq!(handler.get_viewport(), (5, 15)); // Moved up 10 rows

    // Test 's' (down)
    let result = handler.handle_command("s", &mut sheet, &pause);
    assert!(matches!(result, CommandResult::Success));
    assert_eq!(handler.get_viewport(), (15, 15)); // Moved down 10 rows

    // Test 'a' (left)
    let result = handler.handle_command("a", &mut sheet, &pause);
    assert!(matches!(result, CommandResult::Success));
    assert_eq!(handler.get_viewport(), (15, 5)); // Moved left 10 columns

    // Test 'd' (right)
    let result = handler.handle_command("d", &mut sheet, &pause);
    assert!(matches!(result, CommandResult::Success));
    assert_eq!(handler.get_viewport(), (15, 15)); // Moved right 10 columns

    // Test edge case: can't go above row 0
    handler.viewport_row = 5;
    let result = handler.handle_command("w", &mut sheet, &pause);
    assert!(matches!(result, CommandResult::Success));
    assert_eq!(handler.get_viewport(), (0, 15)); // Clamped to 0

    // Test edge case: can't go to the left of column 0
    handler.viewport_col = 5;
    let result = handler.handle_command("a", &mut sheet, &pause);
    assert!(matches!(result, CommandResult::Success));
    assert_eq!(handler.get_viewport(), (0, 0)); // Clamped to 0

    // Test edge case: going beyond bottom of sheet
    handler.viewport_row = sheet.rows - 15;
    let result = handler.handle_command("s", &mut sheet, &pause);
    assert!(matches!(result, CommandResult::Success));
    assert_eq!(handler.get_viewport(), (sheet.rows - 10, 0));

    // Test edge case: going beyond right edge of sheet
    handler.viewport_col = sheet.cols - 15;
    let result = handler.handle_command("d", &mut sheet, &pause);
    assert!(matches!(result, CommandResult::Success));
    assert_eq!(handler.get_viewport(), (sheet.rows - 10, sheet.cols - 10));

    // Test exact sized sheet navigation (10x10)
    let mut exact_sheet = Spreadsheet::new(10, 10);
    handler.viewport_row = 0;
    handler.viewport_col = 0;

    let result = handler.handle_command("s", &mut exact_sheet, &pause);
    assert!(matches!(result, CommandResult::Success));
    assert_eq!(handler.get_viewport(), (0, 0)); // Can't scroll down in 10x10 sheet

    let result = handler.handle_command("d", &mut exact_sheet, &pause);
    assert!(matches!(result, CommandResult::Success));
    assert_eq!(handler.get_viewport(), (0, 0)); // Can't scroll right in 10x10 sheet

    // Test small sheet navigation (smaller than viewport)
    let mut small_sheet = Spreadsheet::new(8, 8);
    handler.viewport_row = 0;
    handler.viewport_col = 0;

    let result = handler.handle_command("s", &mut small_sheet, &pause);
    assert!(matches!(result, CommandResult::Success));
    assert_eq!(handler.get_viewport(), (0, 0)); // Can't scroll down in small sheet

    let result = handler.handle_command("d", &mut small_sheet, &pause);
    assert!(matches!(result, CommandResult::Success));
    assert_eq!(handler.get_viewport(), (0, 0)); // Can't scroll right in small sheet
}

#[test]
fn test_unrecognized_command() {
    let mut handler = CommandHandler::new();
    let mut sheet = Spreadsheet::new(10, 10);

    let result = handler.handle_command("unknown_command", &mut sheet, &pause);
    assert!(matches!(result, CommandResult::UnrecognizedCommand));
}

#[test]
fn test_display_prompt() {
    let handler = CommandHandler::new();

    let output_str = handler.display_prompt(0);

    // The exact content will vary because of the elapsed time, but it should contain the status
    assert!(output_str.contains("ok"));
    assert!(output_str.contains(">"));
}

#[test]
fn the_prompt_shows_tenths_of_a_second() {
    let mut handler = CommandHandler::new();
    assert_eq!(handler.display_prompt(0), "[0.0] (ok) > ");
    assert_eq!(handler.display_prompt(1249), "[1.2] (ok) > ");
    assert_eq!(handler.display_prompt(1250), "[1.3] (ok) > ");
    assert_eq!(handler.display_prompt(59_960), "[60.0] (ok) > ");
    let mut sheet = Spreadsheet::new(10, 10);
    handler.handle_command("nonsense", &mut sheet, &pause);
    assert_eq!(handler.display_prompt(100), "[0.1] (unrecognized cmd) > ");
}

#[test]
fn an_empty_line_keeps_the_last_result() {
    let mut handler = CommandHandler::new();
    let mut sheet = Spreadsheet::new(10, 10);
    assert_eq!(
        handler.handle_command("A1=1/0+", &mut sheet, &pause),
        CommandResult::UnrecognizedCommand
    );
    assert_eq!(handler.handle_command("  \n", &mut sheet, &pause), CommandResult::Success);
    assert_eq!(handler.last_result, CommandResult::UnrecognizedCommand);
    assert_eq!(handler.handle_command("q\n", &mut sheet, &pause), CommandResult::Quit);
    assert_eq!(handler.last_result, CommandResult::Quit);
}

#[test]
fn assignments_reach_the_sheet() {
    let mut handler = CommandHandler::new();
    let mut sheet = Spreadsheet::new(10, 10);
    assert_eq!(handler.handle_command("B1 = 6\n", &mut sheet, &pause), CommandResult::Success);
    assert_eq!(sheet.get_val((2, 1)), Some(6));
    assert_eq!(handler.handle_command(" B2 =7\n", &mut sheet, &pause), CommandResult::Success);
    assert_eq!(sheet.get_val((2, 2)), Some(7));
    assert_eq!(handler.handle_command("B3=1 + 2", &mut sheet, &pause), CommandResult::UnrecognizedCommand);
    assert_eq!(handler.handle_command("C3=B2*B2", &mut sheet, &pause), CommandResult::Success);
    assert_eq!(sheet.get_val((3, 3)), Some(49));
    assert_eq!(
        handler.handle_command("C3=2147483647*2", &mut sheet, &pause),
        CommandResult::DivisionByZero
    );
    assert_eq!(handler.handle_command("=5", &mut sheet, &pause), CommandResult::InvalidCell);
    assert_eq!(handler.handle_command("scroll_to A0", &mut sheet, &pause), CommandResult::InvalidCell);
    assert_eq!(handler.handle_command("scroll_to   J10  ", &mut sheet, &pause), CommandResult::Success);
    assert_eq!(handler.get_viewport(), (9, 9));
}
