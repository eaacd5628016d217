//! The commands of the terminal front end and how each of them ends.
use vstd::prelude::*;
use vstd::string::StrSliceExecFns;
use crate::common::text::{
    back_span, find_char, index_of, same_text, scan, span, span_is_run, to_chars, CharClass,
};
use crate::function::waits;
use crate::myparser::{read_trimmed_coordinate, slice, Coord, MyParser};
use crate::spreadsheet::Spreadsheet;

verus! {

/// How a command ended.
#[derive(Copy, Clone, Debug, PartialEq, Eq, Structural)]
pub enum CommandResult {
    Success,
    InvalidCell,
    InvalidRange,
    UnrecognizedCommand,
    CircularDependency,
    DivisionByZero,
    Quit,
}

impl CommandResult {
    /// The result that a code stands for; a code that stands for none counts
    /// as a command that was not recognized.
    pub open spec fn of_code(code: u8) -> CommandResult {
        if code == 0 {
            CommandResult::Success
        } else if code == 1 {
            CommandResult::InvalidCell
        } else if code == 2 {
            CommandResult::InvalidRange
        } else if code == 4 {
            CommandResult::CircularDependency
        } else if code == 5 {
            CommandResult::DivisionByZero
        } else {
            CommandResult::UnrecognizedCommand
        }
    }

    /// The result that the code `code` stands for.
    pub fn from_code(code: u8) -> (result: Self)
        ensures
            result == Self::of_code(code),
    {
        match code {
            0 => CommandResult::Success,
            1 => CommandResult::InvalidCell,
            2 => CommandResult::InvalidRange,
            3 => CommandResult::UnrecognizedCommand,
            4 => CommandResult::CircularDependency,
            5 => CommandResult::DivisionByZero,
            _ => CommandResult::UnrecognizedCommand,
        }
    }

    /// The words that the prompt shows for the result.
    pub open spec fn words(self) -> Seq<char> {
        match self {
            CommandResult::Success => "ok"@,
            CommandResult::InvalidCell => "Invalid cell"@,
            CommandResult::InvalidRange => "Invalid range"@,
            CommandResult::UnrecognizedCommand => "unrecognized cmd"@,
            CommandResult::CircularDependency => "Circular dependency"@,
            CommandResult::DivisionByZero => "Division_by_zero"@,
            CommandResult::Quit => "quit"@,
        }
    }

    /// The words that the prompt shows for the result.
    pub fn as_str(&self) -> (text: &'static str)
        ensures
            text@ == self.words(),
    {
        match self {
            CommandResult::Success => "ok",
            CommandResult::InvalidCell => "Invalid cell",
            CommandResult::InvalidRange => "Invalid range",
            CommandResult::UnrecognizedCommand => "unrecognized cmd",
            CommandResult::CircularDependency => "Circular dependency",
            CommandResult::DivisionByZero => "Division_by_zero",
            CommandResult::Quit => "quit",
        }
    }
}

/// What the terminal remembers between commands: the row and the column
/// before the first ones in view, whether the sheet is shown after a
/// command, and how the last command ended.
pub struct CommandHandler {
    pub viewport_row: usize,
    pub viewport_col: usize,
    pub output_enabled: bool,
    pub last_result: CommandResult,
}

/// What a line asks for.
pub enum Command {
    /// Nothing: the line is empty.
    Nothing,
    Quit,
    /// To show the sheet after each command, or not.
    Output(bool),
    /// To bring the cell that a name names into the first place in view; the
    /// name may be missing.
    ScrollTo(Option<Seq<char>>),
    Up,
    Down,
    Left,
    Right,
    /// To give the cell that the first text names what the second writes.
    Assign(Seq<char>, Seq<char>),
    Unknown,
}

/// `s` without the blanks after it.
pub open spec fn trimmed_end(s: Seq<char>) -> Seq<char> {
    s.subrange(0, back_span(s, s.len() as int))
}

/// The second word of `t`, words being what blanks part; nothing if there
/// is none.
pub open spec fn second_word(t: Seq<char>) -> Option<Seq<char>> {
    let a = span(t, 0, CharClass::Space);
    let b = index_of_blank(t, a);
    let c = span(t, b, CharClass::Space);
    let d = index_of_blank(t, c);
    if 0 <= c < d <= t.len() {
        Some(t.subrange(c, d))
    } else {
        None
    }
}

/// The place of the first blank in `s` from `p` on; the length of `s` if
/// there is none.
pub open spec fn index_of_blank(s: Seq<char>, p: int) -> int
    decreases s.len() - p,
{
    if 0 <= p < s.len() && !crate::common::text::is_space(s[p]) {
        index_of_blank(s, p + 1)
    } else {
        p
    }
}

/// What the line `line` asks for. Blanks after it do not count.
pub open spec fn command_of(line: Seq<char>) -> Command {
    let t = trimmed_end(line);
    if t.len() == 0 {
        Command::Nothing
    } else if t == seq!['q'] || t == seq!['Q'] {
        Command::Quit
    } else if t == "disable_output"@ {
        Command::Output(false)
    } else if t == "enable_output"@ {
        Command::Output(true)
    } else if t.len() >= 9 && t.subrange(0, 9) == "scroll_to"@ {
        Command::ScrollTo(second_word(t))
    } else if t == seq!['w'] {
        Command::Up
    } else if t == seq!['s'] {
        Command::Down
    } else if t == seq!['a'] {
        Command::Left
    } else if t == seq!['d'] {
        Command::Right
    } else if index_of(t, 0, '=') < t.len() {
        Command::Assign(
            t.subrange(0, index_of(t, 0, '=')),
            t.subrange(index_of(t, 0, '=') + 1, t.len() as int),
        )
    } else {
        Command::Unknown
    }
}

/// Where a step of 10 back leads from `at`: not before the start.
pub open spec fn stepped_back(at: usize) -> usize {
    if at >= 10 {
        (at - 10) as usize
    } else {
        0
    }
}

/// Where a step of 10 on leads from `at` in a sheet of `size` rows or
/// columns: nowhere in a sheet of at most 10; else 10 on where 20 on is still
/// in the sheet; else to the tenth place from the end.
pub open spec fn stepped_on(at: usize, size: usize) -> usize {
    if size <= 10 {
        0
    } else if at + 20 < size {
        (at + 10) as usize
    } else {
        (size - 10) as usize
    }
}

/// Whether `sheet` is `before` after the cell `coord` was given the text
/// `text`, and `result` is how that ended.
pub open spec fn assigned(
    before: &Spreadsheet,
    coord: Coord,
    text: Seq<char>,
    result: CommandResult,
    sheet: &Spreadsheet,
) -> bool {
    exists|code: u8| #[trigger]
        sheet.given(before, coord, text, code) && result == CommandResult::of_code(code)
}

/// The place of the first blank in `s` from `p` on.
fn find_blank(s: &Vec<char>, p: usize) -> (q: usize)
    requires
        p <= s.len(),
    ensures
        q == index_of_blank(s@, p as int),
        p <= q <= s.len(),
{
    let mut q: usize = p;
    while q < s.len() && !crate::common::text::char_is_space(s[q])
        invariant
            p <= q <= s.len(),
            index_of_blank(s@, p as int) == index_of_blank(s@, q as int),
        decreases s.len() - q,
    {
        q += 1;
    }
    q
}

impl CommandHandler {
    /// A terminal at the first cell of the sheet, which shows the sheet
    /// after each command, with nothing gone wrong.
    pub fn new() -> (handler: Self)
        ensures
            handler.viewport_row == 0,
            handler.viewport_col == 0,
            handler.output_enabled,
            handler.last_result == CommandResult::Success,
    {
        CommandHandler {
            viewport_row: 0,
            viewport_col: 0,
            output_enabled: true,
            last_result: CommandResult::Success,
        }
    }

    /// Whether `after`, with the answer `result` and the sheet `sheet`, is
    /// what the command `command` makes of the terminal `before` and the
    /// sheet `sheet_before`. An empty line changes nothing, not even the
    /// result that is remembered. Every other command leaves its result to be
    /// remembered. Only an assignment changes the sheet.
    pub open spec fn handled(
        before: CommandHandler,
        sheet_before: &Spreadsheet,
        command: Command,
        result: CommandResult,
        after: CommandHandler,
        sheet: &Spreadsheet,
    ) -> bool {
        let kept = after.viewport_row == before.viewport_row && after.viewport_col
            == before.viewport_col && after.output_enabled == before.output_enabled
            && after.last_result == result;
        match command {
            Command::Nothing => result == CommandResult::Success && after == before
                && sheet.same_as(sheet_before),
            Command::Quit => result == CommandResult::Quit && kept && sheet.same_as(sheet_before),
            Command::Unknown => result == CommandResult::UnrecognizedCommand && kept
                && sheet.same_as(sheet_before),
            Command::Output(on) => result == CommandResult::Success && after.viewport_row
                == before.viewport_row && after.viewport_col == before.viewport_col
                && after.output_enabled == on && after.last_result == result && sheet.same_as(
                sheet_before,
            ),
            Command::Up => result == CommandResult::Success && after.viewport_row == stepped_back(
                before.viewport_row,
            ) && after.viewport_col == before.viewport_col && after.output_enabled
                == before.output_enabled && after.last_result == result && sheet.same_as(
                sheet_before,
            ),
            Command::Left => result == CommandResult::Success && after.viewport_col == stepped_back(
                before.viewport_col,
            ) && after.viewport_row == before.viewport_row && after.output_enabled
                == before.output_enabled && after.last_result == result && sheet.same_as(
                sheet_before,
            ),
            Command::Down => result == CommandResult::Success && after.viewport_row == stepped_on(
                before.viewport_row,
                sheet_before.height(),
            ) && after.viewport_col == before.viewport_col && after.output_enabled
                == before.output_enabled && after.last_result == result && sheet.same_as(
                sheet_before,
            ),
            Command::Right => result == CommandResult::Success && after.viewport_col == stepped_on(
                before.viewport_col,
                sheet_before.width(),
            ) && after.viewport_row == before.viewport_row && after.output_enabled
                == before.output_enabled && after.last_result == result && sheet.same_as(
                sheet_before,
            ),
            Command::ScrollTo(name) => sheet.same_as(sheet_before) && after.output_enabled
                == before.output_enabled && after.last_result == result && match Self::target(
                name,
                sheet_before,
            ) {
                Some(coord) => result == CommandResult::Success && after.viewport_row == coord.1
                    - 1 && after.viewport_col == coord.0 - 1,
                None => result == CommandResult::InvalidCell && after.viewport_row
                    == before.viewport_row && after.viewport_col == before.viewport_col,
            },
            Command::Assign(name, text) => after.viewport_row == before.viewport_row
                && after.viewport_col == before.viewport_col && after.output_enabled
                == before.output_enabled && after.last_result == result
                && match MyParser::cell_coordinate(name) {
                Some(coord) => assigned(sheet_before, coord, text, result, sheet),
                None => result == CommandResult::InvalidCell && sheet.same_as(sheet_before),
            },
        }
    }

    /// The cell that a scroll leads to: the cell that `name` names, where it
    /// lies in rows 1 to the last of the sheet and columns 1 to the last.
    pub open spec fn target(name: Option<Seq<char>>, sheet: &Spreadsheet) -> Option<Coord> {
        match name {
            Some(text) => match MyParser::cell_coordinate(text) {
                Some(coord) => if 1 <= coord.1 <= sheet.height() && 1 <= coord.0
                    <= sheet.width() {
                    Some(coord)
                } else {
                    None
                },
                None => None,
            },
            None => None,
        }
    }

    /// Carries out the command that `command` writes: to quit, to switch
    /// the showing of the sheet on or off, to scroll to a cell, to move the
    /// view by 10 rows or columns, or to give a cell a number or a formula.
    pub fn handle_command<P: Fn(i32)>(
        &mut self,
        command: &str,
        sheet: &mut Spreadsheet,
        pause: &P,
    ) -> (result: CommandResult)
        requires
            old(sheet).wf(),
            waits(pause),
        ensures
            final(sheet).wf(),
            Self::handled(
                *old(self),
                old(sheet),
                command_of(command@),
                result,
                *final(self),
                final(sheet),
            ),
    {
        let chars = to_chars(command);
        let mut n: usize = chars.len();
        while n > 0 && crate::common::text::char_is_space(chars[n - 1])
            invariant
                n <= chars@.len(),
                back_span(chars@, chars@.len() as int) == back_span(chars@, n as int),
            decreases n,
        {
            n -= 1;
        }
        let line = slice(&chars, 0, n);
        assert(line@ == trimmed_end(command@));
        assert(line@.subrange(0, n as int) =~= line@);
        if n == 0 {
            return CommandResult::Success;
        }
        proof {
            reveal_strlit("disable_output");
            reveal_strlit("enable_output");
            reveal_strlit("scroll_to");
        }
        let q = vec!['q'];
        let big_q = vec!['Q'];
        let w = vec!['w'];
        let s = vec!['s'];
        let a = vec!['a'];
        let d = vec!['d'];
        let disable = to_chars("disable_output");
        let enable = to_chars("enable_output");
        let scroll = to_chars("scroll_to");
        assert(q@ =~= seq!['q'] && big_q@ =~= seq!['Q'] && w@ =~= seq!['w'] && s@ =~= seq!['s']
            && a@ =~= seq!['a'] && d@ =~= seq!['d']);
        let result = if same_text(&line, 0, n, &q) || same_text(&line, 0, n, &big_q) {
            CommandResult::Quit
        } else if same_text(&line, 0, n, &disable) {
            self.output_enabled = false;
            CommandResult::Success
        } else if same_text(&line, 0, n, &enable) {
            self.output_enabled = true;
            CommandResult::Success
        } else if n >= 9 && same_text(&line, 0, 9, &scroll) {
            self.handle_scroll_to(&line, sheet)
        } else if same_text(&line, 0, n, &w) {
            self.viewport_row = if self.viewport_row >= 10 {
                self.viewport_row - 10
            } else {
                0
            };
            CommandResult::Success
        } else if same_text(&line, 0, n, &s) {
            let rows = sheet.rows();
            if rows <= 10 {
                self.viewport_row = 0;
            } else if self.viewport_row < rows && rows - self.viewport_row > 20 {
                self.viewport_row = self.viewport_row + 10;
            } else {
                self.viewport_row = rows - 10;
            }
            CommandResult::Success
        } else if same_text(&line, 0, n, &a) {
            self.viewport_col = if self.viewport_col >= 10 {
                self.viewport_col - 10
            } else {
                0
            };
            CommandResult::Success
        } else if same_text(&line, 0, n, &d) {
            let cols = sheet.cols();
            if cols <= 10 {
                self.viewport_col = 0;
            } else if self.viewport_col < cols && cols - self.viewport_col > 20 {
                self.viewport_col = self.viewport_col + 10;
            } else {
                self.viewport_col = cols - 10;
            }
            CommandResult::Success
        } else {
            let pos = find_char(&line, 0, '=');
            if pos < n {
                self.handle_cell_assignment(command, &line, pos, sheet, pause)
            } else {
                CommandResult::UnrecognizedCommand
            }
        };
        self.last_result = result;
        result
    }

    /// Brings the cell that the second word of `line` names into the first
    /// place in view, if it is a cell of the sheet.
    fn handle_scroll_to(&mut self, line: &Vec<char>, sheet: &Spreadsheet) -> (result: CommandResult)
        requires
            sheet.wf(),
        ensures
            final(self).output_enabled == old(self).output_enabled,
            final(self).last_result == old(self).last_result,
            match Self::target(second_word(line@), sheet) {
                Some(coord) => result == CommandResult::Success && final(self).viewport_row
                    == coord.1 - 1 && final(self).viewport_col == coord.0 - 1,
                None => result == CommandResult::InvalidCell && final(self).viewport_row == old(
                    self,
                ).viewport_row && final(self).viewport_col == old(self).viewport_col,
            },
    {
        let a = scan(line, 0, CharClass::Space);
        let b = find_blank(line, a);
        let c = scan(line, b, CharClass::Space);
        let d = find_blank(line, c);
        if c < d {
            let word = slice(line, c, d);
            assert(word@.subrange(0, word@.len() as int) =~= word@);
            match read_trimmed_coordinate(&word, 0, word.len()) {
                Some((col, row)) => {
                    proof {
                        word_is_trimmed(line@, c as int, d as int);
                    }
                    if 1 <= row && row as usize <= sheet.rows() && 1 <= col && col as usize
                        <= sheet.cols() {
                        self.viewport_row = row as usize - 1;
                        self.viewport_col = col as usize - 1;
                        return CommandResult::Success;
                    }
                },
                None => {
                    proof {
                        word_is_trimmed(line@, c as int, d as int);
                    }
                },
            }
        }
        CommandResult::InvalidCell
    }

    /// Gives the cell that `line` names before the `=` at place `pos` what
    /// it writes after it.
    fn handle_cell_assignment<P: Fn(i32)>(
        &mut self,
        command: &str,
        line: &Vec<char>,
        pos: usize,
        sheet: &mut Spreadsheet,
        pause: &P,
    ) -> (result: CommandResult)
        requires
            old(sheet).wf(),
            waits(pause),
            pos < line@.len(),
            line@.len() <= command@.len(),
            line@ == command@.subrange(0, line@.len() as int),
        ensures
            final(sheet).wf(),
            *final(self) == *old(self),
            match MyParser::cell_coordinate(line@.subrange(0, pos as int)) {
                Some(coord) => assigned(
                    old(sheet),
                    coord,
                    line@.subrange(pos + 1, line@.len() as int),
                    result,
                    final(sheet),
                ),
                None => result == CommandResult::InvalidCell && final(sheet).same_as(old(sheet)),
            },
    {
        match read_trimmed_coordinate(line, 0, pos) {
            Some(coord) => {
                let end = line.len();
                let expr = command.substring_char(pos + 1, end);
                assert(expr@ =~= line@.subrange(pos + 1, line@.len() as int));
                let code = sheet.set_cell(coord, expr, pause);
                CommandResult::from_code(code)
            },
            None => CommandResult::InvalidCell,
        }
    }

    /// The prompt after `millis` thousandths of a second: the seconds that
    /// the last command took, to the nearest tenth, in square brackets, and how
    /// it ended, in round ones.
    pub open spec fn prompt(self, millis: u64) -> Seq<char> {
        let tenths = (millis + 50) / 100;
        seq!['['] + crate::common::text::decimal((tenths / 10) as nat) + seq!['.']
            + crate::common::text::decimal((tenths % 10) as nat) + seq![']', ' ', '(']
            + self.last_result.words() + seq![')', ' ', '>', ' ']
    }

    /// The prompt that the terminal shows when the last command took
    /// `millis` thousandths of a second.
    pub fn display_prompt(&self, millis: u64) -> (text: String)
        requires
            millis <= u64::MAX - 50,
        ensures
            text@ == self.prompt(millis),
    {
        let tenths: u64 = (millis + 50) / 100;
        let mut out: Vec<char> = Vec::new();
        out.push('[');
        crate::common::text::push_decimal_long(&mut out, tenths / 10);
        out.push('.');
        crate::common::text::push_decimal_long(&mut out, tenths % 10);
        out.push(']');
        out.push(' ');
        out.push('(');
        let mut words = to_chars(self.last_result.as_str());
        out.append(&mut words);
        out.push(')');
        out.push(' ');
        out.push('>');
        out.push(' ');
        assert(out@ =~= self.prompt(millis));
        crate::common::text::from_chars(&out)
    }

    /// Whether the sheet is shown after a command.
    pub fn should_display(&self) -> (shown: bool)
        ensures
            shown == self.output_enabled,
    {
        self.output_enabled
    }

    /// The row and the column before the first ones in view.
    pub fn get_viewport(&self) -> (viewport: (usize, usize))
        ensures
            viewport == (self.viewport_row, self.viewport_col),
    {
        (self.viewport_row, self.viewport_col)
    }
}

/// A word has no blanks round it.
pub proof fn word_is_trimmed(s: Seq<char>, from: int, to: int)
    requires
        0 <= from < to <= s.len(),
        !crate::common::text::is_space(s[from]),
        index_of_blank(s, from) == to,
    ensures
        crate::common::text::trimmed(s.subrange(from, to)) == s.subrange(from, to),
{
    let word = s.subrange(from, to);
    no_blank_before(s, from, to);
    assert(!crate::common::text::is_space(word[0]));
    assert(!crate::common::text::is_space(word[word.len() - 1])) by {
        assert(word[word.len() - 1] == s[to - 1]);
    }
    assert(span(word, 0, CharClass::Space) == 0);
    assert(back_span(word, word.len() as int) == word.len());
    assert(word.subrange(0, word.len() as int) =~= word);
}

/// No blank stands before the first blank.
pub proof fn no_blank_before(s: Seq<char>, from: int, to: int)
    requires
        0 <= from <= to <= s.len(),
        index_of_blank(s, from) == to,
    ensures
        forall|i: int| from <= i < to ==> !crate::common::text::is_space(#[trigger] s[i]),
    decreases to - from,
{
    if from < to {
        no_blank_before(s, from + 1, to);
    }
}

} // verus!
