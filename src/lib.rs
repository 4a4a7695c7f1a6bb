//! Table and column inventory built from query metadata, and grouping of
//! tables whose column sets overlap.

pub mod text;
pub mod query;
pub mod order;
pub mod processor;
pub mod inference;
pub mod laws;
