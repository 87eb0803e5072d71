//! LogQL over log files: a scanner, a parser, a planner and the readers behind them.

pub mod error;
pub mod logfmt;
pub mod parser;
pub mod plan;
pub mod scanner;
pub mod table;
pub mod text;
