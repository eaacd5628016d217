//! The vocabulary shared by the parser, the evaluator and the store.
pub mod cell_data;
pub mod cell_map;
pub mod cell_value;
pub mod expression;
pub mod number;
pub mod structs;
pub mod text;
