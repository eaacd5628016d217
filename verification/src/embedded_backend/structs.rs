//! One edit of a cell as the history keeps it: what the cell was given
//! before the edit and what it was given by it.
use vstd::prelude::*;
use crate::common::cell_value::{CellValue, Content};
use crate::common::structs::AbsCell;

verus! {

/// What a cell can be given: a value, or a formula as text.
pub enum CellInput {
    Value(CellValue),
    Formula(String),
}

/// What a cell can be given, with its text as a sequence of characters.
pub enum Input {
    Value(Content),
    Formula(Seq<char>),
}

impl View for CellInput {
    type V = Input;

    open spec fn view(&self) -> Input {
        match self {
            CellInput::Value(v) => Input::Value(v@),
            CellInput::Formula(text) => Input::Formula(text@),
        }
    }
}

impl Clone for CellInput {
    fn clone(&self) -> (copy: Self)
        ensures
            copy@ == self@,
    {
        match self {
            CellInput::Value(v) => CellInput::Value(v.clone()),
            CellInput::Formula(text) => CellInput::Formula(text.clone()),
        }
    }
}

/// An edit: the cell, what it was given before, and what the edit gave it.
pub struct Action {
    pub cell: AbsCell,
    pub old_value: CellInput,
    pub new_value: CellInput,
}

/// An edit as a mathematical value.
pub struct Edit {
    pub cell: AbsCell,
    pub before: Input,
    pub after: Input,
}

impl View for Action {
    type V = Edit;

    open spec fn view(&self) -> Edit {
        Edit { cell: self.cell, before: self.old_value@, after: self.new_value@ }
    }
}

} // verus!
