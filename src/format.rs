//! Storage formats.
pub mod banded;
pub mod compressed;
pub mod conventional;
pub mod convert;
pub mod diagonal;
pub mod laws;
pub mod operation;
pub mod packed;
