//! What a cell holds: a value or the error of its formula, and the formula
//! itself where it has one.
use vstd::prelude::*;
use crate::common::expression::Expression;
use crate::common::number::Number;

verus! {

/// Why the formula of a cell has no value.
#[derive(Debug, Copy, Clone, PartialEq, Eq, Structural, Hash)]
pub enum CellError {
    /// A division by zero.
    DivideByZero,
    /// Arithmetic on a cell that holds text.
    DependsOnNonNumeric,
    /// A range that holds a cell in error.
    DependsOnErr,
}

/// The value of a cell.
#[derive(Debug, Default, PartialEq)]
pub enum CellValue {
    #[default]
    Empty,
    String(String),
    Number(Number),
}

/// The value of a cell with its text as a sequence of characters.
pub enum Content {
    Empty,
    Text(Seq<char>),
    Number(Number),
}

impl View for CellValue {
    type V = Content;

    open spec fn view(&self) -> Content {
        match self {
            CellValue::Empty => Content::Empty,
            CellValue::String(text) => Content::Text(text@),
            CellValue::Number(n) => Content::Number(*n),
        }
    }
}

impl Clone for CellValue {
    fn clone(&self) -> (copy: Self)
        ensures
            copy@ == self@,
    {
        match self {
            CellValue::Empty => CellValue::Empty,
            CellValue::String(text) => CellValue::String(text.clone()),
            CellValue::Number(n) => CellValue::Number(*n),
        }
    }
}

impl CellValue {
    /// Whether the value is the empty one.
    pub fn is_empty(&self) -> (b: bool)
        ensures
            b == (self@ is Empty),
    {
        match self {
            CellValue::Empty => true,
            _ => false,
        }
    }
}

/// The value of a cell, or the error of its formula, as a mathematical
/// value.
pub open spec fn outcome_view(value: Result<CellValue, CellError>) -> Result<Content, CellError> {
    match value {
        Ok(v) => Ok(v@),
        Err(e) => Err(e),
    }
}

/// A copy of a value or error.
pub fn clone_outcome(value: &Result<CellValue, CellError>) -> (copy: Result<CellValue, CellError>)
    ensures
        outcome_view(copy) == outcome_view(*value),
{
    match value {
        Ok(v) => Ok(v.clone()),
        Err(e) => Err(*e),
    }
}

/// All that a cell holds.
#[derive(Debug, PartialEq)]
pub struct CellData {
    /// The value of the cell: what was put there, or what its formula gave.
    pub value: Result<CellValue, CellError>,
    /// The formula of the cell, if it has one.
    pub formula: Option<Expression>,
}

/// All that a cell holds, as a mathematical value.
pub struct Record {
    pub value: Result<Content, CellError>,
    pub formula: Option<Expression>,
}

impl Record {
    /// What a cell holds that was never written: no value and no formula.
    pub open spec fn blank() -> Record {
        Record { value: Ok(Content::Empty), formula: None }
    }
}

impl View for CellData {
    type V = Record;

    open spec fn view(&self) -> Record {
        Record { value: outcome_view(self.value), formula: self.formula }
    }
}

impl Clone for CellData {
    fn clone(&self) -> (copy: Self)
        ensures
            copy@ == self@,
    {
        let formula = match &self.formula {
            Some(expression) => Some(expression.clone()),
            None => None,
        };
        CellData { value: clone_outcome(&self.value), formula }
    }
}

impl Default for CellData {
    fn default() -> (data: Self)
        ensures
            data@ == Record::blank(),
    {
        CellData { value: Ok(CellValue::Empty), formula: None }
    }
}

impl CellData {
    /// What a cell holds that was never written.
    pub fn default_instance() -> (data: CellData)
        ensures
            data@ == Record::blank(),
    {
        CellData { value: Ok(CellValue::Empty), formula: None }
    }
}

} // verus!
