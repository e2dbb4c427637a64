//! An in-memory term-frequency index over text documents, with the tokenizer
//! that feeds it and the decisions of the refresh cycle that keeps it current.

pub mod chars;
pub mod counts;
pub mod laws;
pub mod lexer;
pub mod model;
pub mod rank;
pub mod reader;
pub mod refresh;
pub mod snapshot;
pub mod time;
pub mod view;
pub mod web;
