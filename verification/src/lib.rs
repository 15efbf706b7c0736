//! Filters for structured records: a small language of boolean expressions
//! over the fields of a record, its parser and its evaluation, the pipeline
//! that applies filters to records, and the layout of a record that passed.

pub mod ast;
pub mod cli;
pub mod eval;
pub mod filters;
pub mod grammar;
pub mod layout;
pub mod parser;
pub mod printer;
pub mod record;
pub mod text;

pub use ast::{EPath, Exp};
pub use eval::{eval, eval_equals, eval_exists, eval_not_equals, filter};
pub use filters::Filters;
pub use layout::{layout, Layout};
pub use parser::{parse, SyntaxError};
pub use record::Record;
