//! The core of an interactive shell around one program: a prefix trie, and a
//! line editor with a cursor, a history and completions, both verified.

pub mod complete;
pub mod editor;
pub mod lemmas;
pub mod repl;
pub mod words;
