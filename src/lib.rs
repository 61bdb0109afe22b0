//! Readers and writers for bank transaction logs in a binary, a CSV and a
//! key-value text layout, all sharing one in-memory record model.
pub mod bytes;
pub mod cli;
pub mod decimal;
pub mod error;
pub mod fields;
pub mod format;
pub mod parser;
pub mod storage;
pub mod text;
