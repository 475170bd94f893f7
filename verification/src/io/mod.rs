//! Storage of game records.

pub mod tf;
