//! Discrete-math toolkit: sorted character sets and a calculator's commands
//! over them, binary relations and their text form, a weighted-graph
//! analysis engine (reading, components, shortest routes, metrics), and
//! Boolean formulas with their truth tables and normal forms.
pub mod char_set;
pub mod relation;
pub mod relation_text;
pub mod graph;
pub mod walks;
pub mod components;
pub mod shortest;
pub mod report;
pub mod metrics;
pub mod text;
pub mod ingest;
pub mod cli;
pub mod commands;
pub mod boolean;
