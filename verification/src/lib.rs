//! A spreadsheet calculation engine: cells addressed by row and column,
//! formulas over them, and a store that keeps every computed cell in step
//! with the cells it reads.
//!
//! The engine proper lives in [`common`], [`parser`] and
//! [`embedded_backend`]. Formulas are sums and products of numbers,
//! references, functions of ranges and delays; references are kept relative
//! to the cell that owns the formula, so that a formula can be copied. The
//! store keeps a graph with an edge from every cell that is read to the cell
//! that reads it, refuses a formula that would make a cell depend on itself,
//! and carries every change forward to the cells that depend on it. The
//! controller on top of the store keeps the history of edits.
//!
//! Numbers are binary64 values, carried by their bits. The library decides
//! on the bits what it has to decide (whether a divisor is zero, whether a
//! delay is longer than nothing) and asks a host for everything else: a
//! function from [`common::number::Request`] to [`common::number::Reply`]
//! that the caller hands to every operation that computes, reads or writes
//! numbers. What an operation promises, it promises of every answer that the
//! host may give.
//!
//! [`spreadsheet`], [`commands`], [`function`] and [`myparser`] are a
//! second, simpler sheet for a terminal: whole numbers, and formulas of one
//! operator or one function.
pub mod commands;
pub mod common;
pub mod embedded_backend;
pub mod function;
pub mod myparser;
pub mod parser;
pub mod spreadsheet;
