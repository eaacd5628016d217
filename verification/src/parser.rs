//! Reading formulas from text.
pub mod formula_parser;
pub mod round_trip;
