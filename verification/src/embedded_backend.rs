//! The engine: the store of cells, the graph of what reads what, the
//! evaluator, and the controller that keeps the history of edits.
pub mod calc_engine;
pub mod graph;
pub mod simple;
pub mod storage;
pub mod structs;
