//! Hexadecimal-plus-ASCII dumps of byte streams, formatted block by block and
//! merged into ascending offset order.

pub mod chunk;
pub mod cli;
pub mod dump;
pub mod format;
pub mod line;
pub mod orchestrator;
pub mod table;
