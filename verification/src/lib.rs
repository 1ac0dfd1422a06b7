//! A sparse map with stable generational keys, designed for frequent
//! insertions and removals. Vacant slots are reused, and each reuse bumps the
//! slot's generation so that keys to removed values stay invalid.
pub mod history;
pub mod key;
pub mod laws;
pub mod map;
pub mod model;
mod storage;

pub use key::Key;
pub use map::{Drain, SparseMap};
pub use model::SparseMapModel;
