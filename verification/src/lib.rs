//! A source-code index builder: extracts named top-level declarations from
//! parsed source files and reconciles them with a previously persisted index
//! under set semantics and a deterministic total order.

pub mod entry;
pub mod extract;
pub mod index;
pub mod order;
pub mod parse;
pub mod table;
