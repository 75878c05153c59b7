//! Core logic of a language server that offers pytest fixtures: parsing the
//! output of `pytest --fixtures`, choosing how to run pytest, naming cache
//! files, and the text shown by completion and hover.

pub mod text;
pub mod fixtures;
pub mod runner;
pub mod cache;
pub mod server;
pub mod parse_laws;
