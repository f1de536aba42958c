//! Core of a parallel command-execution engine: template tokens, command
//! building, input spooling, the indexed input reader and the ordered
//! output collector.

pub mod arguments;
pub mod collector;
pub mod command;
pub mod digits;
pub mod dry;
pub mod input_iterator;
pub mod paths;
pub mod shell;
pub mod splitter;
pub mod text;
pub mod tokenizer;
