//! Hash-consed symbolic terms: every structurally distinct term is stored once,
//! so that equality, ordering and hashing of terms are comparisons of handles.

pub mod laws;
pub mod model;
pub mod symbol;
pub mod term;
