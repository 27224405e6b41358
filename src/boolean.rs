//! Boolean formulas: tokens, syntax trees, evaluation and normal forms.
pub mod ast;
pub mod eval;
pub mod forms;
pub mod parser;
