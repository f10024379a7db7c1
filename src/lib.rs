//! A response-value model for query execution results, with a conversion
//! into the literal-input representation.
pub mod input;
pub mod value;
