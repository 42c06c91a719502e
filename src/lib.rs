//! Encrypted columnar storage: a reversible substitution codec for cells, an
//! authenticated envelope keyed by tenant token, and the pipelines that turn a
//! write request into sealed column files and read them back into a table.

pub mod codec;
pub mod crypto;
pub mod error;
pub mod model;
pub mod table;
pub mod text;
