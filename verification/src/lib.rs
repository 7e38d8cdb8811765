//! Schema-driven decoding of packed binary data into JSON.

pub mod bits;
pub mod eval;
pub mod field;
pub mod float;
pub mod guard;
pub mod json;
pub mod laws;
pub mod number;
pub mod packet;
pub mod portable;
pub mod schema;
pub mod text;
pub mod tree;
