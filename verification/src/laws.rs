//! What holds of the library as a whole.

pub mod alignment;
pub mod depth;
pub mod dry;
pub mod expressions;
pub mod fields;
pub mod known;
pub mod loops;
pub mod maps;
pub mod numbers;
pub mod packets;
pub mod parts;
pub mod plain;
pub mod results;
pub mod runs;
pub mod schemas;
pub mod steps;
pub mod texts;
