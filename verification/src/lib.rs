//! A table-driven lexical scanner.
//!
//! The crate reads a scanner definition naming an alphabet, a newline symbol
//! and an ordered list of pre-built deterministic finite automata (DFAs), and
//! tokenizes input text by repeatedly selecting the longest prefix accepted by
//! any DFA (maximal-munch lexing), emitting tagged tokens with line/column
//! positions.

pub mod alphabet;
pub mod alphabet_translator;
pub mod dfa;
pub mod driver;
pub mod regex;
pub mod scanner;
pub mod text;
pub mod transition_table;
