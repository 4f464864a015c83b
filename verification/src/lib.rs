//! A small text format for branching dialogues: the text is compiled into a
//! graph of named sections joined by trigger-labelled mappings, and a session
//! walks that graph one trigger at a time.

pub mod dtree;
pub mod error;
pub mod linker;
pub mod parser;
pub mod session;
pub mod text;
