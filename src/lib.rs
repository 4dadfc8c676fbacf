//! An LL(1) parser generator core: the grammar representation, the start
//! wrapper, the nullable / FIRST / FOLLOW analyses with their meaning in
//! terms of leftmost derivations, the predictive parse table with its
//! conflict check, a table-driven parse driver that is sound and complete
//! for LL(1) grammars, and a hand-written parser laid out the same way.
pub mod ast;
pub mod completeness;
pub mod derivation;
pub mod driver;
pub mod generator;
pub mod lexer;
pub mod ll_table_gen;
pub mod parsing;
pub mod start_wrapper;
pub mod term_parser;
