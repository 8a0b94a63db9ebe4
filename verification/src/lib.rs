//! Call-graph and pointer analysis for C sources: a C preprocessor, the
//! shared intermediate representation, and an Andersen-style points-to
//! solver over a pointer assignment graph.

pub mod text;
pub mod lexer;
pub mod line_map;
pub mod macros;
pub mod options;
pub mod pp_eval;
pub mod preprocessor;
pub mod ids;
pub mod span;
pub mod flow;
pub mod symbol;
pub mod types;
pub mod program;
pub mod constraints;
pub mod keymap;
pub mod pag;
pub mod solver;
pub mod callgraph;
pub mod summaries;
pub mod discover;
pub mod index_cache;
pub mod syntax;
pub mod lower;
