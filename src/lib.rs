//! Matrix laboratory: dense, banded, diagonal, packed and compressed sparse
//! matrices, with conversions and products between them.
pub mod element;
pub mod size;

pub use element::{Element, Number};
pub use size::{Position, Size};

pub mod format;
pub mod operation;

pub use format::banded::Banded;
pub use format::compressed::{Compressed, Variant};
pub use format::conventional::Conventional;
pub use format::diagonal::Diagonal;
pub use format::packed::Packed;
pub use operation::{Multiply, MultiplyInto, MultiplySelf, Transpose};
