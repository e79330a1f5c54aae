//! What holds of the grammar on every input, proved from its definition.

pub mod braces;
pub mod cursor;
pub mod failures;
pub mod lookahead;
pub mod round_trip;
pub mod shape;
pub mod skeleton;
pub mod span;
pub mod spelling;
pub mod tokens;
pub mod whitespace;
